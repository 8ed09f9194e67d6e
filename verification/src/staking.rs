//! The bond/unbond engine.
//!
//! Bonding synchronizes the staker's share record against the pool's
//! reward index, raises the record's and the pool's bonded amounts,
//! checkpoints the staker's balance and the pool's total at the current
//! height, and marks first-time stakers as pool members.  Unbonding first
//! releases matured locks, then lowers the bonded amounts the same way,
//! charges the instant-release fee when an explicit period is named, and
//! either pays the principal at once or locks it until it matures.
//! Restaking reclaims everything a position has locked.  Every operation
//! is all-or-nothing: a failed request leaves the state exactly as it
//! was.

use vstd::prelude::*;
use crate::assoc::{has_key, index_of, key_at, lemma_key_at_index_of, lemma_push_entry,
    lemma_update_value, lookup, unique_keys};
use crate::decimal::Decimal;
use crate::errors::StakingError;
use crate::fees::{fee_of, has_period};
use crate::locks::{lock_insert, matured_len, sum_amounts, LockInfo, LockQueue, MAX_LIMIT};
use crate::msg::{Event, Response, TransferMsg};
use crate::rewards::{before_share_change, sync_ok_f, synced_pending_f};
use crate::snapshot::{current0, spec_record, History};
use crate::state::{lemma_sum_push, lemma_sum_update, sum_pool_bonds, Asset, AssetInfo, PoolInfo,
    RewardInfo, StakingState};

verus! {

/// Whether `staker` appears in a membership list.
pub open spec fn member_of(l: Seq<String>, staker: Seq<char>) -> bool {
    exists|i: int| 0 <= i < l.len() && (#[trigger] l[i])@ == staker
}

/// The share-record fields an increase starts from: the existing record's,
/// or a fresh all-zero record for a staker's first bond.
pub open spec fn base_record(pre: StakingState, staker: Seq<char>, token: Seq<char>) -> (
    Decimal,
    u128,
    u128,
) {
    if has_key(pre.rewards@, (staker, token)) {
        let orec = lookup(pre.rewards@, (staker, token));
        (orec.index, orec.bond_amount, orec.pending_reward)
    } else {
        (Decimal { atomics: 0 }, 0, 0)
    }
}

/// The balance history an increase starts from.
pub open spec fn base_balance(pre: StakingState, token: Seq<char>, staker: Seq<char>) -> Seq<
    crate::snapshot::Checkpoint,
> {
    if has_key(pre.balances@, (token, staker)) {
        lookup(pre.balances@, (token, staker))@
    } else {
        Seq::empty()
    }
}

/// The total history an increase starts from.
pub open spec fn base_total(pre: StakingState, token: Seq<char>) -> Seq<
    crate::snapshot::Checkpoint,
> {
    if has_key(pre.totals@, token) {
        lookup(pre.totals@, token)@
    } else {
        Seq::empty()
    }
}

/// Whether an increase of `amount` can be applied: the pool exists, the
/// synchronization stays in bounds, and no amount overflows.
pub open spec fn increase_ok(pre: StakingState, staker: Seq<char>, token: Seq<char>, amount:
    u128) -> bool {
    &&& has_key(pre.pools@, token)
    &&& {
        let pool = lookup(pre.pools@, token);
        let (oi, ob, op) = base_record(pre, staker, token);
        &&& sync_ok_f(pool.reward_index, oi, ob, op)
        &&& ob + amount <= u128::MAX
        &&& pool.total_bond_amount + amount <= u128::MAX
        &&& current0(base_balance(pre, token, staker)) + amount <= u128::MAX
        &&& current0(base_total(pre, token)) + amount <= u128::MAX
    }
}

/// The error a rejected increase reports.
pub open spec fn increase_err(pre: StakingState, staker: Seq<char>, token: Seq<char>) ->
    StakingError {
    if !has_key(pre.pools@, token) {
        StakingError::NotFound
    } else if base_record(pre, staker, token).0.atomics > lookup(
        pre.pools@,
        token,
    ).reward_index.atomics {
        StakingError::Underflow
    } else {
        StakingError::Overflow
    }
}

/// What an applied increase did: record synchronized and raised by
/// `amount`, pool total raised, both histories checkpointed at `height`,
/// the staker marked a member, and nothing else changed.
pub open spec fn increase_applied(pre: StakingState, post: StakingState, height: u64, staker:
    String, token: String, amount: u128) -> bool {
    let pi = index_of(pre.pools@, token@);
    let pool = pre.pools@[pi].1;
    let pidx = pool.reward_index;
    let rk = (staker@, token@);
    let bk = (token@, staker@);
    &&& has_key(pre.pools@, token@)
    &&& post.pools@ =~= pre.pools@.update(
        pi,
        (
            pre.pools@[pi].0,
            PoolInfo {
                staking_token: pool.staking_token,
                total_bond_amount: (pool.total_bond_amount + amount) as u128,
                reward_index: pool.reward_index,
                pending_reward: pool.pending_reward,
            },
        ),
    )
    &&& if has_key(pre.rewards@, rk) {
        let ri = index_of(pre.rewards@, rk);
        let orec = pre.rewards@[ri].1;
        post.rewards@ =~= pre.rewards@.update(
            ri,
            (
                pre.rewards@[ri].0,
                RewardInfo {
                    index: pidx,
                    bond_amount: (orec.bond_amount + amount) as u128,
                    pending_reward: synced_pending_f(
                        pidx,
                        orec.index,
                        orec.bond_amount,
                        orec.pending_reward,
                    ) as u128,
                    pending_withdraw: orec.pending_withdraw,
                },
            ),
        )
    } else {
        &&& post.rewards@.len() == pre.rewards@.len() + 1
        &&& post.rewards@.take(pre.rewards@.len() as int) =~= pre.rewards@
        &&& post.rewards@.last().0@ == rk
        &&& post.rewards@.last().1.index == pidx
        &&& post.rewards@.last().1.bond_amount == amount
        &&& post.rewards@.last().1.pending_reward == 0
        &&& post.rewards@.last().1.pending_withdraw@ =~= Seq::<Asset>::empty()
    }
    &&& {
        let obal = base_balance(pre, token@, staker@);
        let nb = (current0(obal) + amount) as u128;
        &&& has_key(post.balances@, bk)
        &&& lookup(post.balances@, bk)@ =~= spec_record(obal, height, nb)
        &&& if has_key(pre.balances@, bk) {
            let bi = index_of(pre.balances@, bk);
            &&& post.balances@.len() == pre.balances@.len()
            &&& post.balances@[bi].0 == pre.balances@[bi].0
            &&& forall|j: int|
                0 <= j < pre.balances@.len() && j != bi ==> post.balances@[j] == pre.balances@[j]
        } else {
            &&& post.balances@.len() == pre.balances@.len() + 1
            &&& post.balances@.take(pre.balances@.len() as int) =~= pre.balances@
            &&& post.balances@.last().0@ == bk
        }
    }
    &&& {
        let otot = base_total(pre, token@);
        let nt = (current0(otot) + amount) as u128;
        &&& has_key(post.totals@, token@)
        &&& lookup(post.totals@, token@)@ =~= spec_record(otot, height, nt)
        &&& if has_key(pre.totals@, token@) {
            let ti = index_of(pre.totals@, token@);
            &&& post.totals@.len() == pre.totals@.len()
            &&& post.totals@[ti].0 == pre.totals@[ti].0
            &&& forall|j: int|
                0 <= j < pre.totals@.len() && j != ti ==> post.totals@[j] == pre.totals@[j]
        } else {
            &&& post.totals@.len() == pre.totals@.len() + 1
            &&& post.totals@.take(pre.totals@.len() as int) =~= pre.totals@
            &&& post.totals@.last().0@ == token@
        }
    }
    &&& {
        &&& has_key(post.stakers@, token@)
        &&& if has_key(pre.stakers@, token@) {
            let si = index_of(pre.stakers@, token@);
            let olist = pre.stakers@[si].1;
            &&& post.stakers@.len() == pre.stakers@.len()
            &&& post.stakers@[si].0 == pre.stakers@[si].0
            &&& lookup(post.stakers@, token@)@ =~= if member_of(olist@, staker@) {
                olist@
            } else {
                olist@.push(staker)
            }
            &&& forall|j: int|
                0 <= j < pre.stakers@.len() && j != si ==> post.stakers@[j] == pre.stakers@[j]
        } else {
            &&& post.stakers@.len() == pre.stakers@.len() + 1
            &&& post.stakers@.take(pre.stakers@.len() as int) =~= pre.stakers@
            &&& post.stakers@.last().0@ == token@
            &&& post.stakers@.last().1@ =~= seq![staker]
        }
    }
    &&& post.config == pre.config
    &&& post.unbonding_periods == pre.unbonding_periods
    &&& post.fees == pre.fees
    &&& post.rewards_per_sec == pre.rewards_per_sec
}

impl StakingState {
    /// Increase the (staker, token) position by `amount`: synchronize the
    /// record, raise both bonded amounts, checkpoint both histories at
    /// `height`, and mark membership.  On failure nothing changes.
    pub(crate) fn increase_bond(&mut self, height: u64, staker_addr: &String, staking_token:
        &String, amount: u128) -> (r: Result<(), StakingError>)
        requires
            old(self).wf(),
            amount > 0,
        ensures
            final(self).wf(),
            r is Ok == increase_ok(*old(self), staker_addr@, staking_token@, amount),
            r is Ok ==> increase_applied(
                *old(self),
                *final(self),
                height,
                *staker_addr,
                *staking_token,
                amount,
            ),
            final(self).locks == old(self).locks,
            r is Err ==> *final(self) == *old(self) && r == Err::<(), StakingError>(
                increase_err(*old(self), staker_addr@, staking_token@),
            ),
    {
        let ghost pre = *self;
        // locate the pool
        let pi = match self.find_pool(staking_token) {
            Some(i) => i,
            None => {
                return Err(StakingError::NotFound);
            },
        };
        proof {
            lemma_key_at_index_of(pre.pools@, staking_token@, pi as int);
        }
        let pidx = self.pools[pi].1.reward_index;
        let pool_total = self.pools[pi].1.total_bond_amount;
        // read the record fields (or a fresh record's)
        let ri_opt = self.find_record(staker_addr, staking_token);
        let (oi, ob, op): (Decimal, u128, u128) = match ri_opt {
            Some(ri) => {
                proof {
                    lemma_key_at_index_of(pre.rewards@, (staker_addr@, staking_token@), ri as int);
                }
                (
                    self.rewards[ri].1.index,
                    self.rewards[ri].1.bond_amount,
                    self.rewards[ri].1.pending_reward,
                )
            },
            None => (Decimal::zero(), 0, 0),
        };
        // validate all arithmetic before touching anything
        let diff = match pidx.checked_sub(oi) {
            Some(d) => d,
            None => {
                return Err(StakingError::Underflow);
            },
        };
        let accrued = match diff.checked_mul_uint_floor(ob) {
            Some(a) => a,
            None => {
                return Err(StakingError::Overflow);
            },
        };
        let new_pending = match op.checked_add(accrued) {
            Some(p) => p,
            None => {
                return Err(StakingError::Overflow);
            },
        };
        let new_bond = match ob.checked_add(amount) {
            Some(b) => b,
            None => {
                return Err(StakingError::Overflow);
            },
        };
        let new_total = match pool_total.checked_add(amount) {
            Some(t) => t,
            None => {
                return Err(StakingError::Overflow);
            },
        };
        let bi_opt = self.find_balance(staking_token, staker_addr);
        let bal_cur: u128 = match bi_opt {
            Some(bi) => {
                proof {
                    lemma_key_at_index_of(pre.balances@, (staking_token@, staker_addr@), bi as int);
                }
                match self.balances[bi].1.current() {
                    Some(v) => v,
                    None => 0,
                }
            },
            None => 0,
        };
        let new_bal = match bal_cur.checked_add(amount) {
            Some(v) => v,
            None => {
                return Err(StakingError::Overflow);
            },
        };
        let ti_opt = self.find_total(staking_token);
        let tot_cur: u128 = match ti_opt {
            Some(ti) => {
                proof {
                    lemma_key_at_index_of(pre.totals@, staking_token@, ti as int);
                }
                match self.totals[ti].1.current() {
                    Some(v) => v,
                    None => 0,
                }
            },
            None => 0,
        };
        let new_tot = match tot_cur.checked_add(amount) {
            Some(v) => v,
            None => {
                return Err(StakingError::Overflow);
            },
        };
        proof {
            assert(increase_ok(pre, staker_addr@, staking_token@, amount));
        }
        // commit: pool total
        self.pools[pi].1.total_bond_amount = new_total;
        proof {
            assert(self.pools@ =~= pre.pools@.update(
                pi as int,
                (
                    pre.pools@[pi as int].0,
                    PoolInfo {
                        staking_token: pre.pools@[pi as int].1.staking_token,
                        total_bond_amount: new_total,
                        reward_index: pidx,
                        pending_reward: pre.pools@[pi as int].1.pending_reward,
                    },
                ),
            ));
            lemma_update_value(pre.pools@, pi as int, self.pools@[pi as int].1);
        }
        // commit: share record
        match ri_opt {
            Some(ri) => {
                self.rewards[ri].1.index = pidx;
                self.rewards[ri].1.pending_reward = new_pending;
                self.rewards[ri].1.bond_amount = new_bond;
                proof {
                    assert(self.rewards@ =~= pre.rewards@.update(
                        ri as int,
                        (
                            pre.rewards@[ri as int].0,
                            RewardInfo {
                                index: pidx,
                                bond_amount: new_bond,
                                pending_reward: new_pending,
                                pending_withdraw: pre.rewards@[ri as int].1.pending_withdraw,
                            },
                        ),
                    ));
                    lemma_update_value(pre.rewards@, ri as int, self.rewards@[ri as int].1);
                }
            },
            None => {
                self.rewards.push(
                    (
                        (staker_addr.clone(), staking_token.clone()),
                        RewardInfo {
                            index: pidx,
                            bond_amount: new_bond,
                            pending_reward: new_pending,
                            pending_withdraw: Vec::new(),
                        },
                    ),
                );
                proof {
                    lemma_push_entry(pre.rewards@, self.rewards@.last());
                    assert(self.rewards@.take(pre.rewards@.len() as int) =~= pre.rewards@);
                }
            },
        }
        let ghost mid_rewards = self.rewards@;
        // commit: balance history
        match bi_opt {
            Some(bi) => {
                self.balances[bi].1.record(height, new_bal);
                proof {
                    lemma_update_value(pre.balances@, bi as int, self.balances@[bi as int].1);
                    assert(self.balances@ =~= pre.balances@.update(
                        bi as int,
                        (pre.balances@[bi as int].0, self.balances@[bi as int].1),
                    ));
                }
            },
            None => {
                let mut h = History::new();
                h.record(height, new_bal);
                self.balances.push(((staking_token.clone(), staker_addr.clone()), h));
                proof {
                    lemma_push_entry(pre.balances@, self.balances@.last());
                    assert(self.balances@.take(pre.balances@.len() as int) =~= pre.balances@);
                }
            },
        }
        // commit: total history
        match ti_opt {
            Some(ti) => {
                self.totals[ti].1.record(height, new_tot);
                proof {
                    lemma_update_value(pre.totals@, ti as int, self.totals@[ti as int].1);
                    assert(self.totals@ =~= pre.totals@.update(
                        ti as int,
                        (pre.totals@[ti as int].0, self.totals@[ti as int].1),
                    ));
                }
            },
            None => {
                let mut h = History::new();
                h.record(height, new_tot);
                self.totals.push((staking_token.clone(), h));
                proof {
                    lemma_push_entry(pre.totals@, self.totals@.last());
                    assert(self.totals@.take(pre.totals@.len() as int) =~= pre.totals@);
                }
            },
        }
        // commit: membership
        let si_opt = self.find_stakers(staking_token);
        match si_opt {
            Some(si) => {
                proof {
                    lemma_key_at_index_of(pre.stakers@, staking_token@, si as int);
                }
                let ghost olist = self.stakers@[si as int].1;
                let n = self.stakers[si].1.len();
                let mut j: usize = 0;
                let mut found = false;
                while j < n
                    invariant
                        n == olist@.len(),
                        j <= n,
                        si < self.stakers@.len(),
                        self.stakers@[si as int].1 == olist,
                        found == exists|w: int|
                            0 <= w < j && (#[trigger] olist@[w])@ == staker_addr@,
                    decreases n - j,
                {
                    if self.stakers[si].1[j] == *staker_addr {
                        found = true;
                        proof {
                            assert(olist@[j as int]@ == staker_addr@);
                        }
                    }
                    j = j + 1;
                }
                proof {
                    assert(found == member_of(olist@, staker_addr@));
                }
                if !found {
                    self.stakers[si].1.push(staker_addr.clone());
                    proof {
                        lemma_update_value(pre.stakers@, si as int, self.stakers@[si as int].1);
                        assert(self.stakers@ =~= pre.stakers@.update(
                            si as int,
                            (pre.stakers@[si as int].0, self.stakers@[si as int].1),
                        ));
                        assert(self.stakers@[si as int].1@ =~= olist@.push(*staker_addr));
                    }
                } else {
                    proof {
                        lemma_key_at_index_of(self.stakers@, staking_token@, si as int);
                    }
                }
            },
            None => {
                let mut l: Vec<String> = Vec::new();
                l.push(staker_addr.clone());
                self.stakers.push((staking_token.clone(), l));
                proof {
                    lemma_push_entry(pre.stakers@, self.stakers@.last());
                    assert(self.stakers@.take(pre.stakers@.len() as int) =~= pre.stakers@);
                    assert(self.stakers@.last().1@ =~= seq![*staker_addr]);
                }
            },
        }
        proof {
            lemma_increase_wf(pre, *self, height, *staker_addr, *staking_token, amount);
        }
        Ok(())
    }
}

/// An applied increase preserves well-formedness: keys stay unique, the
/// changed pool's total absorbs exactly the record's change, other pools
/// and records are untouched, and the synchronized record's index equals
/// its pool's.
proof fn lemma_increase_wf(pre: StakingState, post: StakingState, height: u64, staker: String,
    token: String, amount: u128)
    requires
        pre.wf(),
        increase_ok(pre, staker@, token@, amount),
        increase_applied(pre, post, height, staker, token, amount),
        post.locks == pre.locks,
    ensures
        post.wf(),
{
    let pi = index_of(pre.pools@, token@);
    let pool = pre.pools@[pi].1;
    let pidx = pool.reward_index;
    let rk = (staker@, token@);
    lemma_key_at_index_of(pre.pools@, token@, choose|i: int| key_at(pre.pools@, token@, i));
    lemma_update_value(pre.pools@, pi, post.pools@[pi].1);
    // key uniqueness of each table
    assert(unique_keys(post.pools@));
    if has_key(pre.rewards@, rk) {
        let ri = index_of(pre.rewards@, rk);
        lemma_key_at_index_of(pre.rewards@, rk, choose|i: int| key_at(pre.rewards@, rk, i));
        lemma_update_value(pre.rewards@, ri, post.rewards@[ri].1);
        assert(unique_keys(post.rewards@));
    } else {
        assert(forall|j: int|
            0 <= j < pre.rewards@.len() ==> post.rewards@[j] == pre.rewards@[j]);
        assert forall|a: int, b: int| 0 <= a < b < post.rewards@.len() implies post.rewards@[
            a].0@ != post.rewards@[b].0@ by {
            if b < pre.rewards@.len() {
            } else {
                assert(post.rewards@[b] == post.rewards@.last());
                if post.rewards@[a].0@ == rk {
                    assert(key_at(pre.rewards@, rk, a));
                    assert(false);
                }
            }
        }
    }
    assert(unique_keys(post.balances@)) by {
        if has_key(pre.balances@, (token@, staker@)) {
            let bi = index_of(pre.balances@, (token@, staker@));
            lemma_key_at_index_of(
                pre.balances@,
                (token@, staker@),
                choose|i: int| key_at(pre.balances@, (token@, staker@), i),
            );
            assert forall|a: int, b: int| 0 <= a < b < post.balances@.len() implies post.balances@[
                a].0@ != post.balances@[b].0@ by {
                assert(post.balances@[a].0 == pre.balances@[a].0);
                assert(post.balances@[b].0 == pre.balances@[b].0);
            }
        } else {
            assert forall|a: int, b: int| 0 <= a < b < post.balances@.len() implies post.balances@[
                a].0@ != post.balances@[b].0@ by {
                if b < pre.balances@.len() {
                    assert(post.balances@[a] == pre.balances@[a]);
                    assert(post.balances@[b] == pre.balances@[b]);
                } else {
                    assert(post.balances@[a] == pre.balances@[a]);
                    if post.balances@[a].0@ == (token@, staker@) {
                        assert(key_at(pre.balances@, (token@, staker@), a));
                        assert(false);
                    }
                }
            }
        }
    }
    assert(unique_keys(post.totals@)) by {
        if has_key(pre.totals@, token@) {
            let ti = index_of(pre.totals@, token@);
            assert forall|a: int, b: int| 0 <= a < b < post.totals@.len() implies post.totals@[
                a].0@ != post.totals@[b].0@ by {
                assert(post.totals@[a].0 == pre.totals@[a].0);
                assert(post.totals@[b].0 == pre.totals@[b].0);
            }
        } else {
            assert forall|a: int, b: int| 0 <= a < b < post.totals@.len() implies post.totals@[
                a].0@ != post.totals@[b].0@ by {
                if b < pre.totals@.len() {
                    assert(post.totals@[a] == pre.totals@[a]);
                    assert(post.totals@[b] == pre.totals@[b]);
                } else {
                    assert(post.totals@[a] == pre.totals@[a]);
                    if post.totals@[a].0@ == token@ {
                        assert(key_at(pre.totals@, token@, a));
                        assert(false);
                    }
                }
            }
        }
    }
    assert(unique_keys(post.stakers@)) by {
        if has_key(pre.stakers@, token@) {
            assert forall|a: int, b: int| 0 <= a < b < post.stakers@.len() implies post.stakers@[
                a].0@ != post.stakers@[b].0@ by {
                let si = index_of(pre.stakers@, token@);
                assert(post.stakers@[a].0 == pre.stakers@[a].0);
                assert(post.stakers@[b].0 == pre.stakers@[b].0);
            }
        } else {
            assert forall|a: int, b: int| 0 <= a < b < post.stakers@.len() implies post.stakers@[
                a].0@ != post.stakers@[b].0@ by {
                if b < pre.stakers@.len() {
                    assert(post.stakers@[a] == pre.stakers@[a]);
                    assert(post.stakers@[b] == pre.stakers@[b]);
                } else {
                    assert(post.stakers@[a] == pre.stakers@[a]);
                    if post.stakers@[a].0@ == token@ {
                        assert(key_at(pre.stakers@, token@, a));
                        assert(false);
                    }
                }
            }
        }
    }
    // history and queue well-formedness
    assert forall|i: int| 0 <= i < post.balances@.len() implies (#[trigger] post.balances@[
        i]).1.wf() by {
        if has_key(pre.balances@, (token@, staker@)) {
            let bi = index_of(pre.balances@, (token@, staker@));
            if i != bi {
                assert(post.balances@[i] == pre.balances@[i]);
            } else {
                crate::snapshot::lemma_record_wf_any(pre.balances@[bi].1@, height, (current0(
                    base_balance(pre, token@, staker@),
                ) + amount) as u128);
            }
        } else {
            if i < pre.balances@.len() {
                assert(post.balances@[i] == pre.balances@[i]);
            } else {
                crate::snapshot::lemma_record_wf_any(Seq::empty(), height, (current0(
                    base_balance(pre, token@, staker@),
                ) + amount) as u128);
            }
        }
    }
    assert forall|i: int| 0 <= i < post.totals@.len() implies (#[trigger] post.totals@[
        i]).1.wf() by {
        if has_key(pre.totals@, token@) {
            let ti = index_of(pre.totals@, token@);
            if i != ti {
                assert(post.totals@[i] == pre.totals@[i]);
            } else {
                crate::snapshot::lemma_record_wf_any(pre.totals@[ti].1@, height, (current0(
                    base_total(pre, token@),
                ) + amount) as u128);
            }
        } else {
            if i < pre.totals@.len() {
                assert(post.totals@[i] == pre.totals@[i]);
            } else {
                crate::snapshot::lemma_record_wf_any(Seq::empty(), height, (current0(
                    base_total(pre, token@),
                ) + amount) as u128);
            }
        }
    }
    assert(post.locks == pre.locks);
    assert(forall|i: int| 0 <= i < post.locks@.len() ==> (#[trigger] post.locks@[i]).1.wf());
    assert(forall|i: int| 0 <= i < post.fees@.len() ==> (#[trigger] post.fees@[i]).1.wf());
    // pool totals still match record sums
    assert(post.pools_consistent()) by {
        if has_key(pre.rewards@, rk) {
            let ri = index_of(pre.rewards@, rk);
            lemma_key_at_index_of(pre.rewards@, rk, choose|i: int| key_at(pre.rewards@, rk, i));
            assert forall|i: int| 0 <= i < post.pools@.len() implies (#[trigger] post.pools@[
                i]).1.total_bond_amount == sum_pool_bonds(post.rewards@, post.pools@[i].0@) by {
                lemma_sum_update(pre.rewards@, ri, post.rewards@[ri].1, post.pools@[i].0@);
                assert(post.rewards@ =~= pre.rewards@.update(ri, (pre.rewards@[ri].0, post.rewards@[
                    ri].1)));
                if i == pi {
                    assert(pre.rewards@[ri].0.1@ == token@ && post.pools@[i].0@ == token@);
                } else {
                    assert(post.pools@[i] == pre.pools@[i]);
                    assert(post.pools@[i].0@ != token@);
                }
            }
        } else {
            assert forall|i: int| 0 <= i < post.pools@.len() implies (#[trigger] post.pools@[
                i]).1.total_bond_amount == sum_pool_bonds(post.rewards@, post.pools@[i].0@) by {
                assert(post.rewards@ =~= pre.rewards@.push(post.rewards@.last()));
                lemma_sum_push(pre.rewards@, post.rewards@.last(), post.pools@[i].0@);
                if i == pi {
                } else {
                    assert(post.pools@[i] == pre.pools@[i]);
                    assert(post.pools@[i].0@ != token@);
                }
            }
        }
    }
    // no record index runs ahead of its pool
    assert(post.indexes_bounded()) by {
        assert forall|i: int| 0 <= i < post.rewards@.len() implies has_key(
            post.pools@,
            (#[trigger] post.rewards@[i]).0.1@,
        ) && post.rewards@[i].1.index.atomics <= lookup(
            post.pools@,
            post.rewards@[i].0.1@,
        ).reward_index.atomics by {
            let k2 = post.rewards@[i].0.1@;
            if i < pre.rewards@.len() && post.rewards@[i] == pre.rewards@[i] {
                assert(has_key(pre.pools@, k2));
                if k2 == token@ {
                    lemma_key_at_index_of(post.pools@, token@, pi);
                } else {
                }
            } else {
                assert(k2 == token@);
                lemma_key_at_index_of(post.pools@, token@, pi);
            }
        }
    }
}

/// Whether a decrease fully clears the position: afterwards nothing is
/// bonded and nothing is pending, so deferred withdrawals flush.
pub open spec fn decrease_flushes(pre: StakingState, staker: Seq<char>, token: Seq<char>,
    amount: u128) -> bool {
    let pool = lookup(pre.pools@, token);
    let (oi, ob, op) = base_record(pre, staker, token);
    &&& synced_pending_f(pool.reward_index, oi, ob, op) == 0
    &&& ob == amount
}

/// Whether a decrease of `amount` can be applied: pool and record exist,
/// enough is bonded, the synchronization stays in bounds, and both
/// snapshot values cover the amount.
pub open spec fn decrease_ok(pre: StakingState, staker: Seq<char>, token: Seq<char>, amount:
    u128) -> bool {
    &&& has_key(pre.pools@, token)
    &&& has_key(pre.rewards@, (staker, token))
    &&& {
        let pool = lookup(pre.pools@, token);
        let (oi, ob, op) = base_record(pre, staker, token);
        &&& ob >= amount
        &&& sync_ok_f(pool.reward_index, oi, ob, op)
        &&& current0(base_balance(pre, token, staker)) >= amount
        &&& current0(base_total(pre, token)) >= amount
    }
}

/// The error a rejected decrease reports.
pub open spec fn decrease_err(pre: StakingState, staker: Seq<char>, token: Seq<char>, amount:
    u128) -> StakingError {
    if !has_key(pre.pools@, token) {
        StakingError::NotFound
    } else if !has_key(pre.rewards@, (staker, token)) {
        StakingError::NotFound
    } else {
        let pool = lookup(pre.pools@, token);
        let (oi, ob, op) = base_record(pre, staker, token);
        if ob < amount {
            StakingError::InsufficientBalance
        } else if oi.atomics > pool.reward_index.atomics {
            StakingError::Underflow
        } else if synced_pending_f(pool.reward_index, oi, ob, op) > u128::MAX {
            StakingError::Overflow
        } else {
            StakingError::Underflow
        }
    }
}

/// What an applied decrease did: record synchronized and lowered by
/// `amount`, pool total lowered, both histories checkpointed at `height`,
/// deferred withdrawals handed out exactly when the position fully
/// cleared, and nothing else changed.
pub open spec fn decrease_applied(pre: StakingState, post: StakingState, height: u64, staker:
    String, token: String, amount: u128, assets_out: Seq<Asset>) -> bool {
    let pi = index_of(pre.pools@, token@);
    let pool = pre.pools@[pi].1;
    let pidx = pool.reward_index;
    let rk = (staker@, token@);
    let bk = (token@, staker@);
    let ri = index_of(pre.rewards@, rk);
    let orec = pre.rewards@[ri].1;
    let flush = decrease_flushes(pre, staker@, token@, amount);
    &&& has_key(pre.pools@, token@)
    &&& has_key(pre.rewards@, rk)
    &&& post.pools@ =~= pre.pools@.update(
        pi,
        (
            pre.pools@[pi].0,
            PoolInfo {
                staking_token: pool.staking_token,
                total_bond_amount: (pool.total_bond_amount - amount) as u128,
                reward_index: pool.reward_index,
                pending_reward: pool.pending_reward,
            },
        ),
    )
    &&& post.rewards@.len() == pre.rewards@.len()
    &&& forall|j: int|
        0 <= j < pre.rewards@.len() && j != ri ==> post.rewards@[j] == pre.rewards@[j]
    &&& post.rewards@[ri].0 == pre.rewards@[ri].0
    &&& post.rewards@[ri].1.index == pidx
    &&& post.rewards@[ri].1.bond_amount == (orec.bond_amount - amount) as u128
    &&& post.rewards@[ri].1.pending_reward == synced_pending_f(
        pidx,
        orec.index,
        orec.bond_amount,
        orec.pending_reward,
    ) as u128
    &&& post.rewards@[ri].1.pending_withdraw@ =~= if flush {
        Seq::<Asset>::empty()
    } else {
        orec.pending_withdraw@
    }
    &&& assets_out =~= if flush {
        orec.pending_withdraw@
    } else {
        Seq::<Asset>::empty()
    }
    &&& {
        let obal = base_balance(pre, token@, staker@);
        let nb = (current0(obal) - amount) as u128;
        let bi = index_of(pre.balances@, bk);
        &&& has_key(pre.balances@, bk)
        &&& lookup(post.balances@, bk)@ =~= spec_record(obal, height, nb)
        &&& post.balances@.len() == pre.balances@.len()
        &&& post.balances@[bi].0 == pre.balances@[bi].0
        &&& forall|j: int|
            0 <= j < pre.balances@.len() && j != bi ==> post.balances@[j] == pre.balances@[j]
    }
    &&& {
        let otot = base_total(pre, token@);
        let nt = (current0(otot) - amount) as u128;
        let ti = index_of(pre.totals@, token@);
        &&& has_key(pre.totals@, token@)
        &&& lookup(post.totals@, token@)@ =~= spec_record(otot, height, nt)
        &&& post.totals@.len() == pre.totals@.len()
        &&& post.totals@[ti].0 == pre.totals@[ti].0
        &&& forall|j: int|
            0 <= j < pre.totals@.len() && j != ti ==> post.totals@[j] == pre.totals@[j]
    }
    &&& post.config == pre.config
    &&& post.stakers == pre.stakers
    &&& post.unbonding_periods == pre.unbonding_periods
    &&& post.fees == pre.fees
    &&& post.rewards_per_sec == pre.rewards_per_sec
}

impl StakingState {
    /// Whether a decrease of `amount` could be applied right now, without
    /// touching anything.
    pub(crate) fn can_decrease(&self, staker_addr: &String, staking_token: &String, amount:
        u128) -> (r: Result<(), StakingError>)
        requires
            self.wf(),
            amount > 0,
        ensures
            r is Ok == decrease_ok(*self, staker_addr@, staking_token@, amount),
            r is Err ==> r == Err::<(), StakingError>(
                decrease_err(*self, staker_addr@, staking_token@, amount),
            ),
    {
        let pre = self;
        let pi = match self.find_pool(staking_token) {
            Some(i) => i,
            None => {
                return Err(StakingError::NotFound);
            },
        };
        proof {
            lemma_key_at_index_of(pre.pools@, staking_token@, pi as int);
        }
        let pidx = self.pools[pi].1.reward_index;
        let ri = match self.find_record(staker_addr, staking_token) {
            Some(i) => i,
            None => {
                return Err(StakingError::NotFound);
            },
        };
        proof {
            lemma_key_at_index_of(pre.rewards@, (staker_addr@, staking_token@), ri as int);
        }
        let oi = self.rewards[ri].1.index;
        let ob = self.rewards[ri].1.bond_amount;
        let op = self.rewards[ri].1.pending_reward;
        if ob < amount {
            return Err(StakingError::InsufficientBalance);
        }
        let diff = match pidx.checked_sub(oi) {
            Some(d) => d,
            None => {
                return Err(StakingError::Underflow);
            },
        };
        let accrued = match diff.checked_mul_uint_floor(ob) {
            Some(a) => a,
            None => {
                return Err(StakingError::Overflow);
            },
        };
        match op.checked_add(accrued) {
            Some(_) => (),
            None => {
                return Err(StakingError::Overflow);
            },
        }
        let bal_cur: u128 = match self.find_balance(staking_token, staker_addr) {
            Some(bi) => {
                proof {
                    lemma_key_at_index_of(pre.balances@, (staking_token@, staker_addr@), bi as int);
                }
                match self.balances[bi].1.current() {
                    Some(v) => v,
                    None => 0,
                }
            },
            None => 0,
        };
        if bal_cur < amount {
            return Err(StakingError::Underflow);
        }
        let tot_cur: u128 = match self.find_total(staking_token) {
            Some(ti) => {
                proof {
                    lemma_key_at_index_of(pre.totals@, staking_token@, ti as int);
                }
                match self.totals[ti].1.current() {
                    Some(v) => v,
                    None => 0,
                }
            },
            None => 0,
        };
        if tot_cur < amount {
            return Err(StakingError::Underflow);
        }
        Ok(())
    }

    /// Decrease the (staker, token) position by `amount`: synchronize the
    /// record, lower both bonded amounts, checkpoint both histories at
    /// `height`, and hand out deferred withdrawals when the position fully
    /// clears.  On failure nothing changes.
    pub(crate) fn decrease_bond(&mut self, height: u64, staker_addr: &String, staking_token:
        &String, amount: u128) -> (r: Result<Vec<Asset>, StakingError>)
        requires
            old(self).wf(),
            amount > 0,
        ensures
            final(self).wf(),
            r is Ok == decrease_ok(*old(self), staker_addr@, staking_token@, amount),
            r matches Ok(assets) ==> decrease_applied(
                *old(self),
                *final(self),
                height,
                *staker_addr,
                *staking_token,
                amount,
                assets@,
            ),
            final(self).locks == old(self).locks,
            r is Err ==> *final(self) == *old(self) && r == Err::<Vec<Asset>, StakingError>(
                decrease_err(*old(self), staker_addr@, staking_token@, amount),
            ),
    {
        let ghost pre = *self;
        let pi = match self.find_pool(staking_token) {
            Some(i) => i,
            None => {
                return Err(StakingError::NotFound);
            },
        };
        proof {
            lemma_key_at_index_of(pre.pools@, staking_token@, pi as int);
        }
        let pidx = self.pools[pi].1.reward_index;
        let pool_total = self.pools[pi].1.total_bond_amount;
        let ri = match self.find_record(staker_addr, staking_token) {
            Some(i) => i,
            None => {
                return Err(StakingError::NotFound);
            },
        };
        proof {
            lemma_key_at_index_of(pre.rewards@, (staker_addr@, staking_token@), ri as int);
        }
        let oi = self.rewards[ri].1.index;
        let ob = self.rewards[ri].1.bond_amount;
        let op = self.rewards[ri].1.pending_reward;
        if ob < amount {
            return Err(StakingError::InsufficientBalance);
        }
        let diff = match pidx.checked_sub(oi) {
            Some(d) => d,
            None => {
                return Err(StakingError::Underflow);
            },
        };
        let accrued = match diff.checked_mul_uint_floor(ob) {
            Some(a) => a,
            None => {
                return Err(StakingError::Overflow);
            },
        };
        let new_pending = match op.checked_add(accrued) {
            Some(p) => p,
            None => {
                return Err(StakingError::Overflow);
            },
        };
        let new_bond = ob - amount;
        proof {
            crate::state::lemma_record_le_sum(pre.rewards@, ri as int);
            assert(sum_pool_bonds(pre.rewards@, pre.rewards@[ri as int].0.1@) == sum_pool_bonds(
                pre.rewards@,
                staking_token@,
            ));
            assert(pool_total >= ob);
        }
        let new_total = pool_total - amount;
        let bi_opt = self.find_balance(staking_token, staker_addr);
        let bal_cur: u128 = match bi_opt {
            Some(bi) => {
                proof {
                    lemma_key_at_index_of(pre.balances@, (staking_token@, staker_addr@), bi as int);
                }
                match self.balances[bi].1.current() {
                    Some(v) => v,
                    None => 0,
                }
            },
            None => 0,
        };
        if bal_cur < amount {
            return Err(StakingError::Underflow);
        }
        let bi = match bi_opt {
            Some(b) => b,
            None => {
                proof {
                    assert(false);
                }
                0
            },
        };
        let new_bal = bal_cur - amount;
        let ti_opt = self.find_total(staking_token);
        let tot_cur: u128 = match ti_opt {
            Some(ti) => {
                proof {
                    lemma_key_at_index_of(pre.totals@, staking_token@, ti as int);
                }
                match self.totals[ti].1.current() {
                    Some(v) => v,
                    None => 0,
                }
            },
            None => 0,
        };
        if tot_cur < amount {
            return Err(StakingError::Underflow);
        }
        let ti = match ti_opt {
            Some(t) => t,
            None => {
                proof {
                    assert(false);
                }
                0
            },
        };
        let new_tot = tot_cur - amount;
        proof {
            assert(decrease_ok(pre, staker_addr@, staking_token@, amount));
        }
        // commit: pool total
        self.pools[pi].1.total_bond_amount = new_total;
        proof {
            assert(self.pools@ =~= pre.pools@.update(
                pi as int,
                (
                    pre.pools@[pi as int].0,
                    PoolInfo {
                        staking_token: pre.pools@[pi as int].1.staking_token,
                        total_bond_amount: new_total,
                        reward_index: pidx,
                        pending_reward: pre.pools@[pi as int].1.pending_reward,
                    },
                ),
            ));
            lemma_update_value(pre.pools@, pi as int, self.pools@[pi as int].1);
        }
        // commit: share record, flushing deferred withdrawals on full exit
        self.rewards[ri].1.index = pidx;
        self.rewards[ri].1.pending_reward = new_pending;
        self.rewards[ri].1.bond_amount = new_bond;
        let assets_out: Vec<Asset> = if new_pending == 0 && new_bond == 0 {
            let out = crate::rewards::clone_assets(&self.rewards[ri].1.pending_withdraw);
            self.rewards[ri].1.pending_withdraw = Vec::new();
            out
        } else {
            Vec::new()
        };
        proof {
            lemma_update_value(pre.rewards@, ri as int, self.rewards@[ri as int].1);
            assert(self.rewards@ =~= pre.rewards@.update(
                ri as int,
                (pre.rewards@[ri as int].0, self.rewards@[ri as int].1),
            ));
        }
        // commit: histories
        self.balances[bi].1.record(height, new_bal);
        proof {
            lemma_update_value(pre.balances@, bi as int, self.balances@[bi as int].1);
            assert(self.balances@ =~= pre.balances@.update(
                bi as int,
                (pre.balances@[bi as int].0, self.balances@[bi as int].1),
            ));
        }
        self.totals[ti].1.record(height, new_tot);
        proof {
            lemma_update_value(pre.totals@, ti as int, self.totals@[ti as int].1);
            assert(self.totals@ =~= pre.totals@.update(
                ti as int,
                (pre.totals@[ti as int].0, self.totals@[ti as int].1),
            ));
        }
        proof {
            lemma_decrease_wf(pre, *self, height, *staker_addr, *staking_token, amount, assets_out@);
        }
        Ok(assets_out)
    }
}

/// An applied decrease preserves well-formedness.
proof fn lemma_decrease_wf(pre: StakingState, post: StakingState, height: u64, staker: String,
    token: String, amount: u128, assets_out: Seq<Asset>)
    requires
        pre.wf(),
        amount > 0,
        decrease_ok(pre, staker@, token@, amount),
        decrease_applied(pre, post, height, staker, token, amount, assets_out),
        post.locks == pre.locks,
    ensures
        post.wf(),
{
    let pi = index_of(pre.pools@, token@);
    let rk = (staker@, token@);
    let ri = index_of(pre.rewards@, rk);
    lemma_key_at_index_of(pre.pools@, token@, choose|i: int| key_at(pre.pools@, token@, i));
    lemma_key_at_index_of(pre.rewards@, rk, choose|i: int| key_at(pre.rewards@, rk, i));
    lemma_update_value(pre.pools@, pi, post.pools@[pi].1);
    lemma_update_value(pre.rewards@, ri, post.rewards@[ri].1);
    assert(post.rewards@ =~= pre.rewards@.update(ri, (pre.rewards@[ri].0, post.rewards@[ri].1)));
    assert(unique_keys(post.pools@));
    assert(unique_keys(post.rewards@));
    assert(unique_keys(post.balances@)) by {
        assert forall|a: int, b: int| 0 <= a < b < post.balances@.len() implies post.balances@[
            a].0@ != post.balances@[b].0@ by {
            assert(post.balances@[a].0 == pre.balances@[a].0);
            assert(post.balances@[b].0 == pre.balances@[b].0);
        }
    }
    assert(unique_keys(post.totals@)) by {
        assert forall|a: int, b: int| 0 <= a < b < post.totals@.len() implies post.totals@[
            a].0@ != post.totals@[b].0@ by {
            assert(post.totals@[a].0 == pre.totals@[a].0);
            assert(post.totals@[b].0 == pre.totals@[b].0);
        }
    }
    let bk = (token@, staker@);
    let bi = index_of(pre.balances@, bk);
    lemma_key_at_index_of(pre.balances@, bk, choose|i: int| key_at(pre.balances@, bk, i));
    let ti = index_of(pre.totals@, token@);
    lemma_key_at_index_of(pre.totals@, token@, choose|i: int| key_at(pre.totals@, token@, i));
    assert forall|i: int| 0 <= i < post.balances@.len() implies (#[trigger] post.balances@[
        i]).1.wf() by {
        if i != bi {
            assert(post.balances@[i] == pre.balances@[i]);
        } else {
            lemma_key_at_index_of(post.balances@, bk, bi);
            crate::snapshot::lemma_record_wf_any(pre.balances@[bi].1@, height, (current0(
                base_balance(pre, token@, staker@),
            ) - amount) as u128);
        }
    }
    assert forall|i: int| 0 <= i < post.totals@.len() implies (#[trigger] post.totals@[
        i]).1.wf() by {
        if i != ti {
            assert(post.totals@[i] == pre.totals@[i]);
        } else {
            lemma_key_at_index_of(post.totals@, token@, ti);
            crate::snapshot::lemma_record_wf_any(pre.totals@[ti].1@, height, (current0(
                base_total(pre, token@),
            ) - amount) as u128);
        }
    }
    assert(forall|i: int| 0 <= i < post.locks@.len() ==> (#[trigger] post.locks@[i]).1.wf());
    assert(forall|i: int| 0 <= i < post.fees@.len() ==> (#[trigger] post.fees@[i]).1.wf());
    assert(post.pools_consistent()) by {
        crate::state::lemma_record_le_sum(pre.rewards@, ri);
        assert(pre.pools@[pi].1.total_bond_amount == sum_pool_bonds(pre.rewards@, token@));
        assert(pre.rewards@[ri].1.bond_amount >= amount);
        assert forall|i: int| 0 <= i < post.pools@.len() implies (#[trigger] post.pools@[
            i]).1.total_bond_amount == sum_pool_bonds(post.rewards@, post.pools@[i].0@) by {
            lemma_sum_update(pre.rewards@, ri, post.rewards@[ri].1, post.pools@[i].0@);
            if i == pi {
                assert(pre.rewards@[ri].0.1@ == token@ && post.pools@[i].0@ == token@);
            } else {
                assert(post.pools@[i] == pre.pools@[i]);
                assert(post.pools@[i].0@ != token@);
            }
        }
    }
    assert(post.indexes_bounded()) by {
        assert forall|i: int| 0 <= i < post.rewards@.len() implies has_key(
            post.pools@,
            (#[trigger] post.rewards@[i]).0.1@,
        ) && post.rewards@[i].1.index.atomics <= lookup(
            post.pools@,
            post.rewards@[i].0.1@,
        ).reward_index.atomics by {
            let k2 = post.rewards@[i].0.1@;
            assert(post.rewards@[i].0 == pre.rewards@[i].0);
            assert(has_key(pre.pools@, k2));
            if k2 == token@ {
                lemma_key_at_index_of(post.pools@, token@, pi);
                if i != ri {
                    assert(post.rewards@[i] == pre.rewards@[i]);
                }
            } else {
                assert(i != ri);
                assert(post.rewards@[i] == pre.rewards@[i]);
            }
        }
    }
}

/// Bond `amount` of the staking token for a staker: synchronize, raise
/// the bonded amounts, checkpoint, and mark membership.  A zero amount
/// is accepted as a no-op that changes nothing.
pub fn bond(state: &mut StakingState, height: u64, staker_addr: String, staking_token: String,
    amount: u128) -> (r: Result<Response, StakingError>)
    requires
        old(state).wf(),
    ensures
        final(state).wf(),
        amount == 0 ==> (r matches Ok(resp) && *final(state) == *old(state) && resp.messages@
            =~= Seq::<crate::msg::TransferMsg>::empty() && resp.events@ =~= seq![
            Event::Bond {
                staker_addr: staker_addr,
                staking_token: staking_token,
                amount: amount,
            },
        ]),
        amount > 0 ==> (r is Ok == increase_ok(
            *old(state),
            staker_addr@,
            staking_token@,
            amount,
        )),
        amount > 0 && r is Ok ==> increase_applied(
            *old(state),
            *final(state),
            height,
            staker_addr,
            staking_token,
            amount,
        ),
        amount > 0 && r is Ok ==> (r->Ok_0).messages@ =~= Seq::<
            crate::msg::TransferMsg,
        >::empty() && (r->Ok_0).events@ =~= seq![
            Event::Bond {
                staker_addr: staker_addr,
                staking_token: staking_token,
                amount: amount,
            },
        ],
        r is Err ==> *final(state) == *old(state) && r == Err::<Response, StakingError>(
            increase_err(*old(state), staker_addr@, staking_token@),
        ),
        final(state).locks == old(state).locks,
{
    if amount > 0 {
        match state.increase_bond(height, &staker_addr, &staking_token, amount) {
            Ok(()) => (),
            Err(e) => {
                return Err(e);
            },
        }
    }
    let mut events: Vec<Event> = Vec::new();
    events.push(Event::Bond { staker_addr, staking_token, amount });
    Ok(Response { messages: Vec::new(), events })
}

/// The matured amount waiting in a position's lock queue.
pub open spec fn drained_total(pre: StakingState, token: Seq<char>, staker: Seq<char>, time:
    u64) -> int {
    if has_key(pre.locks@, (token, staker)) {
        let q = lookup(pre.locks@, (token, staker))@;
        sum_amounts(q.take(matured_len(q, time)))
    } else {
        0
    }
}

/// The lock entries a position holds before an operation.
pub open spec fn base_locks(pre: StakingState, token: Seq<char>, staker: Seq<char>) -> Seq<
    LockInfo,
> {
    if has_key(pre.locks@, (token, staker)) {
        lookup(pre.locks@, (token, staker))@
    } else {
        Seq::empty()
    }
}

/// Transfer intents paying the given asset amounts to one recipient.
pub open spec fn transfer_msgs_of(assets: Seq<Asset>, recipient: String, ) -> Seq<TransferMsg> {
    Seq::new(assets.len(), |i: int| TransferMsg {
        recipient: recipient,
        asset: assets[i].info,
        amount: assets[i].amount,
    })
}

/// The delay an unbond uses: the explicit period when one is given, else
/// the pool's registered default, else zero.
pub open spec fn effective_period(pre: StakingState, token: Seq<char>, period_opt: Option<
    u64,
>) -> u64 {
    match period_opt {
        Some(p) => p,
        None => if has_key(pre.unbonding_periods@, token) {
            lookup(pre.unbonding_periods@, token)
        } else {
            0
        },
    }
}

/// Whether an explicit period has a registered fee entry.
pub open spec fn fee_entry_exists(pre: StakingState, token: Seq<char>, p: u64) -> bool {
    has_key(pre.fees@, token) && has_period(lookup(pre.fees@, token)@, p)
}

/// The fee charged for instant release: `amount` times the registered
/// fraction, rounded down.
pub open spec fn spec_fee_amount(pre: StakingState, token: Seq<char>, amount: u128, p: u64) ->
    int {
    (amount as int * fee_of(lookup(pre.fees@, token)@, p).atomics as int) / (
    crate::decimal::FRACTIONAL as int)
}

/// The principal an unbond pays or locks: the amount net of any
/// instant-release fee.
pub open spec fn spec_after_fee(pre: StakingState, token: Seq<char>, amount: u128, period_opt:
    Option<u64>) -> int {
    match period_opt {
        Some(p) => amount - spec_fee_amount(pre, token, amount, p),
        None => amount as int,
    }
}

/// Whether an unbond can be applied: the matured sum fits and, when an
/// amount is being unbonded, the decrease is possible, any explicit
/// period has a fee entry, and a delayed release has room for its lock
/// entry and an unlock time that fits.
pub open spec fn unbond_ok(pre: StakingState, staker: Seq<char>, token: Seq<char>, amount:
    u128, period_opt: Option<u64>, time: u64) -> bool {
    &&& drained_total(pre, token, staker, time) <= u128::MAX
    &&& amount > 0 ==> {
        &&& decrease_ok(pre, staker, token, amount)
        &&& (period_opt matches Some(p) ==> fee_entry_exists(pre, token, p))
        &&& (effective_period(pre, token, period_opt) > 0 ==> {
            &&& time + effective_period(pre, token, period_opt) <= u64::MAX
            &&& base_locks(pre, token, staker).len() - matured_len(
                base_locks(pre, token, staker),
                time,
            ) + 1 <= MAX_LIMIT
        })
    }
}

/// The error a rejected unbond reports.
pub open spec fn unbond_err(pre: StakingState, staker: Seq<char>, token: Seq<char>, amount:
    u128, period_opt: Option<u64>, time: u64) -> StakingError {
    if drained_total(pre, token, staker, time) > u128::MAX {
        StakingError::Overflow
    } else if !decrease_ok(pre, staker, token, amount) {
        decrease_err(pre, staker, token, amount)
    } else if period_opt matches Some(p) && !fee_entry_exists(pre, token, p) {
        StakingError::UnknownFeeOption
    } else if effective_period(pre, token, period_opt) > 0 && time + effective_period(
        pre,
        token,
        period_opt,
    ) > u64::MAX {
        StakingError::Overflow
    } else {
        StakingError::TooManyLocks
    }
}

/// The transfer intents an unbond emits, in order: the matured drain to
/// the staker, the flushed deferred withdrawals on full exit, the
/// instant-release fee to the fee receiver, and an undelayed principal.
pub open spec fn unbond_msgs(pre: StakingState, staker: String, token: String, amount: u128,
    period_opt: Option<u64>, time: u64) -> Seq<TransferMsg> {
    let drained = drained_total(pre, token@, staker@, time);
    let head: Seq<TransferMsg> = if drained > 0 {
        seq![
            TransferMsg {
                recipient: staker,
                asset: AssetInfo::Token { contract_addr: token },
                amount: drained as u128,
            },
        ]
    } else {
        Seq::empty()
    };
    if amount == 0 {
        head
    } else {
        let flushed: Seq<Asset> = if decrease_flushes(pre, staker@, token@, amount) {
            lookup(pre.rewards@, (staker@, token@)).pending_withdraw@
        } else {
            Seq::empty()
        };
        let fee_part: Seq<TransferMsg> = match period_opt {
            Some(p) => seq![
                TransferMsg {
                    recipient: pre.config.withdraw_fee_receiver,
                    asset: AssetInfo::Token { contract_addr: token },
                    amount: spec_fee_amount(pre, token@, amount, p) as u128,
                },
            ],
            None => Seq::empty(),
        };
        let principal: Seq<TransferMsg> = if effective_period(pre, token@, period_opt) == 0 {
            seq![
                TransferMsg {
                    recipient: staker,
                    asset: AssetInfo::Token { contract_addr: token },
                    amount: spec_after_fee(pre, token@, amount, period_opt) as u128,
                },
            ]
        } else {
            Seq::empty()
        };
        head + transfer_msgs_of(flushed, staker) + fee_part + principal
    }
}

/// The events an unbond emits, in order: the matured drain, then either
/// the new lock entry or the immediate release.
pub open spec fn unbond_events(pre: StakingState, staker: String, token: String, amount: u128,
    period_opt: Option<u64>, time: u64) -> Seq<Event> {
    let drained = drained_total(pre, token@, staker@, time);
    let head: Seq<Event> = if drained > 0 {
        seq![
            Event::Unbond { staker_addr: staker, amount: drained as u128, staking_token: token },
        ]
    } else {
        Seq::empty()
    };
    if amount == 0 {
        head
    } else {
        let eff = effective_period(pre, token@, period_opt);
        if eff > 0 {
            head + seq![
                Event::Unbonding {
                    staker_addr: staker,
                    amount: amount,
                    staking_token: token,
                    unlock_time: (time + eff) as u64,
                },
            ]
        } else {
            head + seq![
                Event::Unbond {
                    staker_addr: staker,
                    amount: spec_after_fee(pre, token@, amount, period_opt) as u128,
                    staking_token: token,
                },
            ]
        }
    }
}

/// How an unbond leaves a position's lock queue: the matured prefix
/// drained, and a new entry for a delayed release inserted in time
/// order.
pub open spec fn unbond_locks_applied(pre: StakingState, post: StakingState, staker: Seq<
    char,
>, token: Seq<char>, amount: u128, period_opt: Option<u64>, time: u64, after_fee: u128) ->
    bool {
    let lk = (token, staker);
    let ob = base_locks(pre, token, staker);
    let kept = ob.skip(matured_len(ob, time));
    let eff = effective_period(pre, token, period_opt);
    let inserts = amount > 0 && eff > 0;
    let want: Seq<LockInfo> = if inserts {
        lock_insert(kept, LockInfo { amount: after_fee, unlock_time: (time + eff) as u64 })
    } else {
        kept
    };
    if has_key(pre.locks@, lk) {
        let li = index_of(pre.locks@, lk);
        &&& post.locks@.len() == pre.locks@.len()
        &&& post.locks@[li].0 == pre.locks@[li].0
        &&& lookup(post.locks@, lk)@ =~= want
        &&& forall|j: int|
            0 <= j < pre.locks@.len() && j != li ==> post.locks@[j] == pre.locks@[j]
    } else if inserts {
        &&& post.locks@.len() == pre.locks@.len() + 1
        &&& post.locks@.take(pre.locks@.len() as int) =~= pre.locks@
        &&& post.locks@.last().0@ == lk
        &&& post.locks@.last().1@ =~= want
    } else {
        post.locks == pre.locks
    }
}

/// Unbond `amount` of the staking token (zero is allowed and only
/// releases maturities): drain matured locks to the staker, then lower
/// the bonded amounts, charge the instant-release fee when an explicit
/// period is named, and either pay the principal now (zero delay) or
/// lock it until `time` plus the delay.
#[verifier::rlimit(100)]
pub fn unbond(state: &mut StakingState, height: u64, time: u64, staker_addr: String,
    staking_token: String, amount: u128, unbond_period: Option<u64>) -> (r: Result<
    Response,
    StakingError,
>)
    requires
        old(state).wf(),
    ensures
        final(state).wf(),
        r is Ok == unbond_ok(*old(state), staker_addr@, staking_token@, amount, unbond_period,
            time),
        r matches Ok(resp) ==> {
            &&& resp.messages@ =~= unbond_msgs(
                *old(state),
                staker_addr,
                staking_token,
                amount,
                unbond_period,
                time,
            )
            &&& resp.events@ =~= unbond_events(
                *old(state),
                staker_addr,
                staking_token,
                amount,
                unbond_period,
                time,
            )
            &&& unbond_locks_applied(
                *old(state),
                *final(state),
                staker_addr@,
                staking_token@,
                amount,
                unbond_period,
                time,
                spec_after_fee(*old(state), staking_token@, amount, unbond_period) as u128,
            )
            &&& (amount > 0 ==> decrease_applied(
                *old(state),
                *final(state),
                height,
                staker_addr,
                staking_token,
                amount,
                if decrease_flushes(*old(state), staker_addr@, staking_token@, amount) {
                    lookup(old(state).rewards@, (staker_addr@, staking_token@)).pending_withdraw@
                } else {
                    Seq::<Asset>::empty()
                },
            ))
            &&& (amount == 0 ==> final(state).pools == old(state).pools && final(state).rewards
                == old(state).rewards && final(state).balances == old(state).balances
                && final(state).totals == old(state).totals && final(state).stakers == old(
                state,
            ).stakers)
            &&& final(state).config == old(state).config
            &&& final(state).unbonding_periods == old(state).unbonding_periods
            &&& final(state).fees == old(state).fees
            &&& final(state).rewards_per_sec == old(state).rewards_per_sec
        },
        r is Err ==> *final(state) == *old(state) && r == Err::<Response, StakingError>(
            unbond_err(*old(state), staker_addr@, staking_token@, amount, unbond_period, time),
        ),
{
    let ghost pre = *state;
    // validate: the matured sum fits
    let li_opt = state.find_locks(&staking_token, &staker_addr);
    let drained: u128 = match li_opt {
        Some(li) => {
            proof {
                lemma_key_at_index_of(pre.locks@, (staking_token@, staker_addr@), li as int);
                assert(pre.locks@[li as int].1.wf());
            }
            let d = match state.locks[li].1.matured_amount(time) {
                Ok(d) => d,
                Err(e) => {
                    return Err(e);
                },
            };
            proof {
                let q = pre.locks@[li as int].1@;
                assert(lookup(pre.locks@, (staking_token@, staker_addr@)) == pre.locks@[li
                    as int].1);
                crate::locks::lemma_matured_len_char(q, time);
                crate::locks::lemma_sum_prefix_monotonic(q, 0, matured_len(q, time));
                assert(q.take(0).len() == 0);
                assert(sum_amounts(q.take(matured_len(q, time))) >= 0);
                assert(d as int == sum_amounts(q.take(matured_len(q, time))));
                assert(d as int == drained_total(pre, staking_token@, staker_addr@, time));
            }
            d
        },
        None => 0,
    };
    proof {
        assert(drained as int == drained_total(pre, staking_token@, staker_addr@, time));
    }
    let mut after_fee: u128 = amount;
    let mut fee_amount: u128 = 0;
    let mut eff_period: u64 = 0;
    let mut unlock_time: u64 = 0;
    if amount > 0 {
        // validate: the decrease itself (read-only here; committed below)
        // and the release path
        match state.can_decrease(&staker_addr, &staking_token, amount) {
            Ok(()) => (),
            Err(e) => {
                return Err(e);
            },
        }
        match unbond_period {
            Some(p) => {
                let fee = match state.find_fees(&staking_token) {
                    Some(fi) => {
                        proof {
                            lemma_key_at_index_of(pre.fees@, staking_token@, fi as int);
                            assert(pre.fees@[fi as int].1.wf());
                        }
                        match state.fees[fi].1.get(p) {
                            Some(f) => f,
                            None => {
                                return Err(StakingError::UnknownFeeOption);
                            },
                        }
                    },
                    None => {
                        return Err(StakingError::UnknownFeeOption);
                    },
                };
                proof {
                    crate::fees::lemma_fee_bounded(lookup(pre.fees@, staking_token@)@, p);
                    lemma_fee_le(amount, fee.atomics);
                }
                fee_amount = match fee.checked_mul_uint_floor(amount) {
                    Some(f) => f,
                    None => {
                        proof {
                            assert(false);
                        }
                        0
                    },
                };
                after_fee = amount - fee_amount;
                eff_period = p;
            },
            None => {
                eff_period = match state.find_period(&staking_token) {
                    Some(pi2) => {
                        proof {
                            lemma_key_at_index_of(pre.unbonding_periods@, staking_token@, pi2
                                as int);
                        }
                        state.unbonding_periods[pi2].1
                    },
                    None => 0,
                };
            },
        }
        if eff_period > 0 {
            unlock_time = match time.checked_add(eff_period) {
                Some(t) => t,
                None => {
                    return Err(StakingError::Overflow);
                },
            };
            // validate: room for the new lock entry after the drain
            let room_ok: bool = match li_opt {
                Some(li) => {
                    proof {
                        assert(pre.locks@[li as int].1.wf());
                        crate::locks::lemma_matured_len_char(pre.locks@[li as int].1@, time);
                    }
                    let cur = state.locks[li].1.len();
                    let ml = state.locks[li].1.matured_count(time);
                    cur - ml < MAX_LIMIT as usize
                },
                None => true,
            };
            if !room_ok {
                return Err(StakingError::TooManyLocks);
            }
        }
    }
    // commit: the decrease (fails atomically if impossible; nothing else
    // has been touched yet)
    let mut flushed: Vec<Asset> = Vec::new();
    if amount > 0 {
        flushed = match state.decrease_bond(height, &staker_addr, &staking_token, amount) {
            Ok(a) => a,
            Err(e) => {
                return Err(e);
            },
        };
    }
    let ghost mid = *state;
    proof {
        assert(mid.locks == pre.locks);
    }
    // commit: drain the matured locks
    if let Some(li) = li_opt {
        proof {
            assert(pre.locks@[li as int].1.wf());
        }
        let d = match state.locks[li].1.drain_matured(time) {
            Ok(d) => d,
            Err(e) => {
                proof {
                    assert(false);
                }
                return Err(e);
            },
        };
        proof {
            lemma_update_value(mid.locks@, li as int, state.locks@[li as int].1);
            assert(state.locks@ =~= mid.locks@.update(
                li as int,
                (mid.locks@[li as int].0, state.locks@[li as int].1),
            ));
        }
    }
    let ghost mid2 = *state;
    // commit: the new lock entry for a delayed release
    if amount > 0 && eff_period > 0 {
        match li_opt {
            Some(li) => {
                proof {
                    crate::locks::lemma_matured_len_char(pre.locks@[li as int].1@, time);
                    assert(state.locks@[li as int].1@ =~= pre.locks@[li as int].1@.skip(
                        matured_len(pre.locks@[li as int].1@, time),
                    ));
                }
                match state.locks[li].1.insert(
                    LockInfo { amount: after_fee, unlock_time: unlock_time },
                ) {
                    Ok(()) => (),
                    Err(e) => {
                        proof {
                            assert(false);
                        }
                        return Err(e);
                    },
                }
                proof {
                    lemma_update_value(mid2.locks@, li as int, state.locks@[li as int].1);
                    assert(state.locks@ =~= mid2.locks@.update(
                        li as int,
                        (mid2.locks@[li as int].0, state.locks@[li as int].1),
                    ));
                }
            },
            None => {
                let mut q = LockQueue::new();
                match q.insert(LockInfo { amount: after_fee, unlock_time: unlock_time }) {
                    Ok(()) => (),
                    Err(e) => {
                        proof {
                            assert(false);
                        }
                        return Err(e);
                    },
                }
                state.locks.push(((staking_token.clone(), staker_addr.clone()), q));
                proof {
                    lemma_push_entry(mid2.locks@, state.locks@.last());
                    assert(state.locks@.take(mid2.locks@.len() as int) =~= mid2.locks@);
                }
            },
        }
    }
    // assemble the response in the order the caller observes
    let ghost spec_msgs = unbond_msgs(pre, staker_addr, staking_token, amount, unbond_period,
        time);
    let ghost spec_evs = unbond_events(pre, staker_addr, staking_token, amount, unbond_period,
        time);
    proof {
        assert(drained as int == drained_total(pre, staking_token@, staker_addr@, time));
        if amount > 0 {
            assert(eff_period == effective_period(pre, staking_token@, unbond_period));
            assert(after_fee as int == spec_after_fee(pre, staking_token@, amount, unbond_period));
            if unbond_period is Some {
                assert(fee_amount as int == spec_fee_amount(
                    pre,
                    staking_token@,
                    amount,
                    unbond_period->0,
                ));
            }
        }
    }
    let mut messages: Vec<TransferMsg> = Vec::new();
    let mut events: Vec<Event> = Vec::new();
    if drained > 0 {
        messages.push(
            TransferMsg {
                recipient: staker_addr.clone(),
                asset: AssetInfo::Token { contract_addr: staking_token.clone() },
                amount: drained,
            },
        );
        events.push(
            Event::Unbond {
                staker_addr: staker_addr.clone(),
                amount: drained,
                staking_token: staking_token.clone(),
            },
        );
    }
    let ghost head_msgs = messages@;
    let ghost head_evs = events@;
    if amount > 0 {
        let nf = flushed.len();
        let mut fi2: usize = 0;
        while fi2 < nf
            invariant
                nf == flushed@.len(),
                fi2 <= nf,
                messages@ =~= head_msgs + transfer_msgs_of(flushed@, staker_addr).take(
                    fi2 as int,
                ),
            decreases nf - fi2,
        {
            proof {
                assert(transfer_msgs_of(flushed@, staker_addr).take(fi2 as int + 1)
                    =~= transfer_msgs_of(flushed@, staker_addr).take(fi2 as int).push(
                    transfer_msgs_of(flushed@, staker_addr)[fi2 as int],
                ));
            }
            let a = crate::rewards::clone_asset(&flushed[fi2]);
            messages.push(
                TransferMsg { recipient: staker_addr.clone(), asset: a.info, amount: a.amount },
            );
            fi2 = fi2 + 1;
        }
        proof {
            assert(transfer_msgs_of(flushed@, staker_addr).take(nf as int) =~= transfer_msgs_of(
                flushed@,
                staker_addr,
            ));
        }
        if unbond_period.is_some() {
            messages.push(
                TransferMsg {
                    recipient: state.config.withdraw_fee_receiver.clone(),
                    asset: AssetInfo::Token { contract_addr: staking_token.clone() },
                    amount: fee_amount,
                },
            );
        }
        if eff_period > 0 {
            events.push(
                Event::Unbonding {
                    staker_addr: staker_addr.clone(),
                    amount: amount,
                    staking_token: staking_token.clone(),
                    unlock_time: unlock_time,
                },
            );
        } else {
            messages.push(
                TransferMsg {
                    recipient: staker_addr.clone(),
                    asset: AssetInfo::Token { contract_addr: staking_token.clone() },
                    amount: after_fee,
                },
            );
            events.push(
                Event::Unbond {
                    staker_addr: staker_addr.clone(),
                    amount: after_fee,
                    staking_token: staking_token.clone(),
                },
            );
        }
    }
    proof {
        // the response matches its specification
        assert(messages@ =~= spec_msgs);
        assert(events@ =~= spec_evs);
        // the lock queue ended where the specification says
        let lk = (staking_token@, staker_addr@);
        let ob = base_locks(pre, staking_token@, staker_addr@);
        let kept = ob.skip(matured_len(ob, time));
        let inserts = amount > 0 && eff_period > 0;
        match li_opt {
            Some(li) => {
                assert(key_at(pre.locks@, lk, li as int));
                lemma_key_at_index_of(pre.locks@, lk, li as int);
                assert(state.locks@[li as int].0 == pre.locks@[li as int].0);
                assert(key_at(state.locks@, lk, li as int));
                assert(unique_keys(state.locks@));
                lemma_key_at_index_of(state.locks@, lk, li as int);
                if inserts {
                    assert(state.locks@[li as int].1@ =~= lock_insert(
                        kept,
                        LockInfo { amount: after_fee, unlock_time: unlock_time },
                    ));
                } else {
                    assert(state.locks@[li as int].1@ =~= kept);
                }
            },
            None => {
                if inserts {
                    assert(state.locks@.last().0@ == lk);
                    assert(matured_len(ob, time) == 0);
                    assert(kept =~= Seq::<LockInfo>::empty());
                    assert(state.locks@.last().1@ =~= lock_insert(
                        kept,
                        LockInfo { amount: after_fee, unlock_time: unlock_time },
                    ));
                } else {
                    assert(state.locks == pre.locks);
                }
            },
        }
        assert(unbond_locks_applied(
            pre,
            *state,
            staker_addr@,
            staking_token@,
            amount,
            unbond_period,
            time,
            after_fee,
        ));
        // well-formedness of the final state
        assert(mid.wf());
        assert(state.pools == mid.pools && state.rewards == mid.rewards && state.balances
            == mid.balances && state.totals == mid.totals && state.stakers == mid.stakers
            && state.config == mid.config && state.unbonding_periods == mid.unbonding_periods
            && state.fees == mid.fees && state.rewards_per_sec == mid.rewards_per_sec);
        assert forall|i: int| 0 <= i < state.locks@.len() implies (#[trigger] state.locks@[
            i]).1.wf() by {
            match li_opt {
                Some(li) => {
                    if i != li {
                        assert(state.locks@[i] == pre.locks@[i]);
                    }
                },
                None => {
                    if i < pre.locks@.len() {
                        assert(state.locks@[i] == pre.locks@[i]);
                    }
                },
            }
        }
        assert(state.wf());
    }
    Ok(Response { messages, events })
}

/// An instant-release fee never exceeds the amount it is charged on.
proof fn lemma_fee_le(amount: u128, atomics: u128)
    requires
        atomics <= crate::decimal::FRACTIONAL,
    ensures
        0 <= (amount as int * atomics as int) / (crate::decimal::FRACTIONAL as int) <= amount,
{
    let f = crate::decimal::FRACTIONAL as int;
    assert(amount as int * atomics as int <= amount as int * f) by (nonlinear_arith)
        requires
            atomics as int <= f,
            0 <= amount as int,
    ;
    vstd::arithmetic::div_mod::lemma_div_is_ordered(
        amount as int * atomics as int,
        amount as int * f,
        f,
    );
    assert(amount as int * f / f == amount as int) by (nonlinear_arith)
        requires
            0 < f,
    ;
    assert(amount as int * atomics as int >= 0) by (nonlinear_arith)
        requires
            0 <= amount as int,
            0 <= atomics as int,
    ;
    vstd::arithmetic::div_mod::lemma_div_pos_is_pos(amount as int * atomics as int, f);
}

/// The whole amount waiting in a position's lock queue, matured or not.
pub open spec fn locked_total(pre: StakingState, token: Seq<char>, staker: Seq<char>) -> int {
    sum_amounts(base_locks(pre, token, staker))
}

/// How a restake leaves a position's lock queue: empty.
pub open spec fn restake_locks_applied(pre: StakingState, post: StakingState, staker: Seq<
    char,
>, token: Seq<char>) -> bool {
    let lk = (token, staker);
    if has_key(pre.locks@, lk) {
        let li = index_of(pre.locks@, lk);
        &&& post.locks@.len() == pre.locks@.len()
        &&& post.locks@[li].0 == pre.locks@[li].0
        &&& lookup(post.locks@, lk)@ =~= Seq::<LockInfo>::empty()
        &&& forall|j: int|
            0 <= j < pre.locks@.len() && j != li ==> post.locks@[j] == pre.locks@[j]
    } else {
        post.locks == pre.locks
    }
}

/// Re-bond everything waiting in the position's lock queue, matured or
/// not: the funds never left custody, so maturity is irrelevant.  All
/// lock entries are removed; their sum re-enters the bonded position
/// through the same path a bond takes.  A position with nothing locked
/// is a no-op.
pub fn restake(state: &mut StakingState, height: u64, time: u64, staker_addr: String,
    staking_token: String) -> (r: Result<Response, StakingError>)
    requires
        old(state).wf(),
    ensures
        final(state).wf(),
        r is Ok == (locked_total(*old(state), staking_token@, staker_addr@) <= u128::MAX && (
        locked_total(*old(state), staking_token@, staker_addr@) > 0 ==> increase_ok(
            *old(state),
            staker_addr@,
            staking_token@,
            locked_total(*old(state), staking_token@, staker_addr@) as u128,
        ))),
        r matches Ok(resp) ==> {
            let total = locked_total(*old(state), staking_token@, staker_addr@);
            &&& restake_locks_applied(*old(state), *final(state), staker_addr@, staking_token@)
            &&& resp.messages@ =~= Seq::<TransferMsg>::empty()
            &&& if total > 0 {
                &&& increase_applied(
                    *old(state),
                    *final(state),
                    height,
                    staker_addr,
                    staking_token,
                    total as u128,
                )
                &&& resp.events@ =~= seq![
                    Event::Restake {
                        staker_addr: staker_addr,
                        staking_token: staking_token,
                        amount: total as u128,
                    },
                ]
            } else {
                &&& final(state).pools == old(state).pools
                &&& final(state).rewards == old(state).rewards
                &&& final(state).balances == old(state).balances
                &&& final(state).totals == old(state).totals
                &&& final(state).stakers == old(state).stakers
                &&& resp.events@ =~= Seq::<Event>::empty()
            }
            &&& final(state).config == old(state).config
            &&& final(state).unbonding_periods == old(state).unbonding_periods
            &&& final(state).fees == old(state).fees
            &&& final(state).rewards_per_sec == old(state).rewards_per_sec
        },
        r is Err ==> *final(state) == *old(state) && r == Err::<Response, StakingError>(
            if locked_total(*old(state), staking_token@, staker_addr@) > u128::MAX {
                StakingError::Overflow
            } else {
                increase_err(*old(state), staker_addr@, staking_token@)
            },
        ),
{
    let ghost pre = *state;
    let li_opt = state.find_locks(&staking_token, &staker_addr);
    let total: u128 = match li_opt {
        Some(li) => {
            proof {
                lemma_key_at_index_of(pre.locks@, (staking_token@, staker_addr@), li as int);
                assert(pre.locks@[li as int].1.wf());
            }
            let t = match state.locks[li].1.total_amount() {
                Ok(t) => t,
                Err(e) => {
                    return Err(e);
                },
            };
            proof {
                let q = pre.locks@[li as int].1@;
                crate::locks::lemma_sum_prefix_monotonic(q, 0, q.len() as int);
                assert(q.take(0).len() == 0);
                assert(q.take(q.len() as int) =~= q);
                assert(t as int == locked_total(pre, staking_token@, staker_addr@));
            }
            t
        },
        None => 0,
    };
    proof {
        if li_opt is None {
            assert(base_locks(pre, staking_token@, staker_addr@) =~= Seq::<LockInfo>::empty());
        }
        assert(total as int == locked_total(pre, staking_token@, staker_addr@));
    }
    // commit: re-bond the sum through the bond path (fails atomically)
    if total > 0 {
        match state.increase_bond(height, &staker_addr, &staking_token, total) {
            Ok(()) => (),
            Err(e) => {
                return Err(e);
            },
        }
    }
    let ghost mid = *state;
    proof {
        assert(mid.locks == pre.locks);
    }
    // commit: empty the queue
    if let Some(li) = li_opt {
        proof {
            assert(pre.locks@[li as int].1.wf());
        }
        match state.locks[li].1.drain_all() {
            Ok(_) => (),
            Err(e) => {
                proof {
                    assert(false);
                }
                return Err(e);
            },
        }
        proof {
            lemma_update_value(mid.locks@, li as int, state.locks@[li as int].1);
            assert(state.locks@ =~= mid.locks@.update(
                li as int,
                (mid.locks@[li as int].0, state.locks@[li as int].1),
            ));
            lemma_key_at_index_of(state.locks@, (staking_token@, staker_addr@), li as int);
        }
    }
    proof {
        assert(restake_locks_applied(pre, *state, staker_addr@, staking_token@));
        assert forall|i: int| 0 <= i < state.locks@.len() implies (#[trigger] state.locks@[
            i]).1.wf() by {
            match li_opt {
                Some(li) => {
                    if i != li {
                        assert(state.locks@[i] == pre.locks@[i]);
                    }
                },
                None => {
                    assert(state.locks@[i] == pre.locks@[i]);
                },
            }
        }
        assert(state.wf());
    }
    if total == 0 {
        return Ok(Response::new());
    }
    let mut events: Vec<Event> = Vec::new();
    events.push(
        Event::Restake { staker_addr: staker_addr, staking_token: staking_token, amount: total },
    );
    Ok(Response { messages: Vec::new(), events })
}

/// Release every matured lock entry of a position to its staker: the
/// matured prefix is drained and paid out in one transfer (none when
/// nothing matured).
pub fn _withdraw_lock(state: &mut StakingState, time: u64, staker_addr: &String, staking_token:
    &String) -> (r: Result<Response, StakingError>)
    requires
        old(state).wf(),
    ensures
        final(state).wf(),
        r is Ok == (drained_total(*old(state), staking_token@, staker_addr@, time)
            <= u128::MAX),
        r matches Ok(resp) ==> {
            let drained = drained_total(*old(state), staking_token@, staker_addr@, time);
            let lk = (staking_token@, staker_addr@);
            let ob = base_locks(*old(state), staking_token@, staker_addr@);
            &&& resp.messages@ =~= if drained > 0 {
                seq![
                    TransferMsg {
                        recipient: *staker_addr,
                        asset: AssetInfo::Token { contract_addr: *staking_token },
                        amount: drained as u128,
                    },
                ]
            } else {
                Seq::<TransferMsg>::empty()
            }
            &&& resp.events@ =~= if drained > 0 {
                seq![
                    Event::Unbond {
                        staker_addr: *staker_addr,
                        amount: drained as u128,
                        staking_token: *staking_token,
                    },
                ]
            } else {
                Seq::<Event>::empty()
            }
            &&& if has_key(old(state).locks@, lk) {
                let li = index_of(old(state).locks@, lk);
                &&& final(state).locks@.len() == old(state).locks@.len()
                &&& final(state).locks@[li].0 == old(state).locks@[li].0
                &&& lookup(final(state).locks@, lk)@ =~= ob.skip(matured_len(ob, time))
                &&& forall|j: int|
                    0 <= j < old(state).locks@.len() && j != li ==> final(state).locks@[j] == old(
                        state,
                    ).locks@[j]
            } else {
                final(state).locks == old(state).locks
            }
            &&& final(state).pools == old(state).pools
            &&& final(state).rewards == old(state).rewards
            &&& final(state).balances == old(state).balances
            &&& final(state).totals == old(state).totals
            &&& final(state).stakers == old(state).stakers
            &&& final(state).config == old(state).config
            &&& final(state).unbonding_periods == old(state).unbonding_periods
            &&& final(state).fees == old(state).fees
            &&& final(state).rewards_per_sec == old(state).rewards_per_sec
        },
        r is Err ==> *final(state) == *old(state) && r == Err::<Response, StakingError>(
            StakingError::Overflow,
        ),
{
    let ghost pre = *state;
    let li_opt = state.find_locks(staking_token, staker_addr);
    let drained: u128 = match li_opt {
        Some(li) => {
            proof {
                lemma_key_at_index_of(pre.locks@, (staking_token@, staker_addr@), li as int);
                assert(pre.locks@[li as int].1.wf());
            }
            let d = match state.locks[li].1.matured_amount(time) {
                Ok(d) => d,
                Err(e) => {
                    return Err(e);
                },
            };
            proof {
                let q = pre.locks@[li as int].1@;
                crate::locks::lemma_matured_len_char(q, time);
                crate::locks::lemma_sum_prefix_monotonic(q, 0, matured_len(q, time));
                assert(q.take(0).len() == 0);
                assert(d as int == drained_total(pre, staking_token@, staker_addr@, time));
            }
            d
        },
        None => 0,
    };
    if let Some(li) = li_opt {
        match state.locks[li].1.drain_matured(time) {
            Ok(_) => (),
            Err(e) => {
                proof {
                    assert(false);
                }
                return Err(e);
            },
        }
        proof {
            lemma_update_value(pre.locks@, li as int, state.locks@[li as int].1);
            assert(state.locks@ =~= pre.locks@.update(
                li as int,
                (pre.locks@[li as int].0, state.locks@[li as int].1),
            ));
            lemma_key_at_index_of(state.locks@, (staking_token@, staker_addr@), li as int);
        }
    }
    proof {
        assert forall|i: int| 0 <= i < state.locks@.len() implies (#[trigger] state.locks@[
            i]).1.wf() by {
            match li_opt {
                Some(li) => {
                    if i != li {
                        assert(state.locks@[i] == pre.locks@[i]);
                    }
                },
                None => {
                    assert(state.locks@[i] == pre.locks@[i]);
                },
            }
        }
        assert(state.wf());
    }
    let mut messages: Vec<TransferMsg> = Vec::new();
    let mut events: Vec<Event> = Vec::new();
    if drained > 0 {
        messages.push(
            TransferMsg {
                recipient: staker_addr.clone(),
                asset: AssetInfo::Token { contract_addr: staking_token.clone() },
                amount: drained,
            },
        );
        events.push(
            Event::Unbond {
                staker_addr: staker_addr.clone(),
                amount: drained,
                staking_token: staking_token.clone(),
            },
        );
    }
    Ok(Response { messages, events })
}

/// Round trip: bonding an amount into a fresh position and immediately
/// unbonding it with zero delay pays back exactly that amount in one
/// transfer, and leaves the position's bonded amount at zero.
pub proof fn lemma_bond_unbond_round_trip(s0: StakingState, s1: StakingState, s2: StakingState,
    h1: u64, h2: u64, t2: u64, staker: String, token: String, amount: u128, assets_out: Seq<
    Asset,
>)
    requires
        s0.wf(),
        s1.wf(),
        amount > 0,
        // a fresh position: no record, no pending locks, no default delay
        !has_key(s0.rewards@, (staker@, token@)),
        !has_key(s0.locks@, (token@, staker@)),
        !has_key(s0.unbonding_periods@, token@),
        // the bond applied, and then the unbond's decrease applied
        increase_ok(s0, staker@, token@, amount),
        increase_applied(s0, s1, h1, staker, token, amount),
        s1.locks == s0.locks,
        decrease_applied(s1, s2, h2, staker, token, amount, assets_out),
    ensures
        // the unbond pays back exactly the bonded amount, immediately
        unbond_msgs(s1, staker, token, amount, None, t2) =~= seq![
            TransferMsg {
                recipient: staker,
                asset: AssetInfo::Token { contract_addr: token },
                amount: amount,
            },
        ],
        // and the position is empty again
        lookup(s2.rewards@, (staker@, token@)).bond_amount == 0,
{
    let rk = (staker@, token@);
    let pi = index_of(s0.pools@, token@);
    lemma_key_at_index_of(s0.pools@, token@, choose|i: int| key_at(s0.pools@, token@, i));
    let pidx = s0.pools@[pi].1.reward_index;
    // locate the fresh record that the bond appended
    let ri = s1.rewards@.len() - 1;
    assert(key_at(s1.rewards@, rk, ri));
    lemma_key_at_index_of(s1.rewards@, rk, ri);
    let rec1 = s1.rewards@[ri].1;
    assert(rec1.bond_amount == amount && rec1.pending_reward == 0 && rec1.index == pidx);
    // the bond left the pool's index untouched
    assert(key_at(s1.pools@, token@, pi));
    lemma_key_at_index_of(s1.pools@, token@, pi);
    assert(lookup(s1.pools@, token@).reward_index == pidx);
    // no locks were waiting, so nothing drains
    assert(!has_key(s1.locks@, (token@, staker@)));
    assert(drained_total(s1, token@, staker@, t2) == 0);
    // the synchronization is a no-op on an already-synchronized record
    assert(rec1.bond_amount as int * (pidx.atomics - pidx.atomics) == 0) by (nonlinear_arith);
    assert(synced_pending_f(pidx, rec1.index, rec1.bond_amount, rec1.pending_reward) == 0);
    assert(decrease_flushes(s1, staker@, token@, amount));
    // no default delay: the principal pays out immediately and unshaved
    assert(effective_period(s1, token@, None::<u64>) == 0);
    assert(spec_after_fee(s1, token@, amount, None::<u64>) == amount);
    // the flushed withdrawals are empty, so the single message is the
    // principal
    assert(rec1.pending_withdraw@ =~= Seq::<Asset>::empty());
    assert(transfer_msgs_of(rec1.pending_withdraw@, staker) =~= Seq::<TransferMsg>::empty());
    assert(unbond_msgs(s1, staker, token, amount, None, t2) =~= seq![
        TransferMsg {
            recipient: staker,
            asset: AssetInfo::Token { contract_addr: token },
            amount: amount,
        },
    ]);
    // the record's bonded amount returns to zero
    assert(s2.rewards@[ri].0 == s1.rewards@[ri].0);
    assert(key_at(s2.rewards@, rk, ri));
    assert(unique_keys(s2.rewards@)) by {
        assert forall|a: int, b: int| 0 <= a < b < s2.rewards@.len() implies s2.rewards@[a].0@
            != s2.rewards@[b].0@ by {
            assert(s2.rewards@[a].0 == s1.rewards@[a].0);
            assert(s2.rewards@[b].0 == s1.rewards@[b].0);
        }
    }
    lemma_key_at_index_of(s2.rewards@, rk, ri);
    assert(s2.rewards@[ri].1.bond_amount == 0);
}

/// Right after a bond touches a record, the record's synchronized index
/// equals its pool's reward index.
pub proof fn lemma_increase_syncs_index(pre: StakingState, post: StakingState, height: u64,
    staker: String, token: String, amount: u128)
    requires
        pre.wf(),
        increase_ok(pre, staker@, token@, amount),
        increase_applied(pre, post, height, staker, token, amount),
        post.locks == pre.locks,
    ensures
        has_key(post.rewards@, (staker@, token@)),
        lookup(post.rewards@, (staker@, token@)).index == lookup(
            post.pools@,
            token@,
        ).reward_index,
{
    lemma_increase_wf(pre, post, height, staker, token, amount);
    let rk = (staker@, token@);
    let pi = index_of(pre.pools@, token@);
    lemma_key_at_index_of(pre.pools@, token@, choose|i: int| key_at(pre.pools@, token@, i));
    assert(key_at(post.pools@, token@, pi));
    lemma_key_at_index_of(post.pools@, token@, pi);
    if has_key(pre.rewards@, rk) {
        let ri = index_of(pre.rewards@, rk);
        lemma_key_at_index_of(pre.rewards@, rk, choose|i: int| key_at(pre.rewards@, rk, i));
        assert(key_at(post.rewards@, rk, ri));
        lemma_key_at_index_of(post.rewards@, rk, ri);
    } else {
        assert(key_at(post.rewards@, rk, post.rewards@.len() - 1));
        lemma_key_at_index_of(post.rewards@, rk, post.rewards@.len() - 1);
    }
}

/// Right after an unbond lowers a record, the record's synchronized
/// index equals its pool's reward index.
pub proof fn lemma_decrease_syncs_index(pre: StakingState, post: StakingState, height: u64,
    staker: String, token: String, amount: u128, assets_out: Seq<Asset>)
    requires
        pre.wf(),
        amount > 0,
        decrease_ok(pre, staker@, token@, amount),
        decrease_applied(pre, post, height, staker, token, amount, assets_out),
        post.locks == pre.locks,
    ensures
        has_key(post.rewards@, (staker@, token@)),
        lookup(post.rewards@, (staker@, token@)).index == lookup(
            post.pools@,
            token@,
        ).reward_index,
{
    lemma_decrease_wf(pre, post, height, staker, token, amount, assets_out);
    let rk = (staker@, token@);
    let pi = index_of(pre.pools@, token@);
    lemma_key_at_index_of(pre.pools@, token@, choose|i: int| key_at(pre.pools@, token@, i));
    assert(key_at(post.pools@, token@, pi));
    lemma_key_at_index_of(post.pools@, token@, pi);
    let ri = index_of(pre.rewards@, rk);
    lemma_key_at_index_of(pre.rewards@, rk, choose|i: int| key_at(pre.rewards@, rk, i));
    assert(key_at(post.rewards@, rk, ri));
    lemma_key_at_index_of(post.rewards@, rk, ri);
}

} // verus!
