//! The whole persistent state of the staking contract, held as explicit
//! keyed tables.
//!
//! Every operation takes this state explicitly; the host executes calls one
//! at a time, so no locking is modelled.  Two global invariants are kept by
//! every operation: each pool's bonded total equals the sum of the bonded
//! amounts of the pool's staker records, and no staker's synchronized
//! reward index is ever ahead of its pool's.

use vstd::prelude::*;
use crate::assoc::{has_key, key_at, lookup, unique_keys};
use crate::decimal::Decimal;
use crate::fees::FeeTable;
use crate::locks::LockQueue;
use crate::snapshot::History;

verus! {

/// The identities the contract answers to.
#[derive(Clone, Debug, PartialEq, Eq)]
pub struct Config {
    /// May register pools, change fees and rates, and hand ownership on.
    pub owner: String,
    /// May deposit rewards.
    pub rewarder: String,
    /// Receives every instant-unbonding fee.
    pub withdraw_fee_receiver: String,
}

/// Aggregate state of one staking pool.
#[derive(Clone, Debug, PartialEq, Eq)]
pub struct PoolInfo {
    /// The pool's staking-token identifier.
    pub staking_token: String,
    /// Sum of all bonded amounts in the pool.
    pub total_bond_amount: u128,
    /// Cumulative reward per bonded unit; never decreases.
    pub reward_index: Decimal,
    /// Rewards deposited while nothing was bonded, waiting to enter the
    /// index.
    pub pending_reward: u128,
}

/// What kind of asset an amount is denominated in.
#[derive(Clone, Debug, PartialEq, Eq)]
pub enum AssetInfo {
    /// A native coin, named by its denomination.
    NativeToken { denom: String },
    /// A token contract, named by its address.
    Token { contract_addr: String },
}

/// An amount of one asset.
#[derive(Clone, Debug, PartialEq, Eq)]
pub struct Asset {
    pub info: AssetInfo,
    pub amount: u128,
}

/// The per-(staker, pool) share record of the reward ledger.
#[derive(Clone, Debug, PartialEq, Eq)]
pub struct RewardInfo {
    /// The staker's last-synchronized copy of the pool's reward index.
    pub index: Decimal,
    /// The staker's bonded amount in the pool.
    pub bond_amount: u128,
    /// Accrued but unwithdrawn reward units.
    pub pending_reward: u128,
    /// Asset amounts owed from earlier rate changes, paid out when the
    /// position fully clears.
    pub pending_withdraw: Vec<Asset>,
}

/// The bonded amounts a pool's records contribute to that pool.
pub open spec fn sum_pool_bonds(rs: Seq<((String, String), RewardInfo)>, pool: Seq<char>) -> int
    decreases rs.len(),
{
    if rs.len() == 0 {
        0
    } else {
        sum_pool_bonds(rs.drop_last(), pool) + if rs.last().0.1@ == pool {
            rs.last().1.bond_amount as int
        } else {
            0
        }
    }
}

/// Changing one record's content changes a pool's bond sum by that
/// record's own contribution only.
pub proof fn lemma_sum_update(rs: Seq<((String, String), RewardInfo)>, i: int, nv: RewardInfo,
    pool: Seq<char>)
    requires
        0 <= i < rs.len(),
    ensures
        sum_pool_bonds(rs.update(i, (rs[i].0, nv)), pool) == sum_pool_bonds(rs, pool) + if rs[
        i].0.1@ == pool {
            nv.bond_amount - rs[i].1.bond_amount
        } else {
            0
        },
    decreases rs.len(),
{
    let t = rs.update(i, (rs[i].0, nv));
    if i == rs.len() - 1 {
        assert(t.drop_last() =~= rs.drop_last());
        assert(t.last() == (rs[i].0, nv));
    } else {
        lemma_sum_update(rs.drop_last(), i, nv, pool);
        assert(t.drop_last() =~= rs.drop_last().update(i, (rs[i].0, nv)));
        assert(t.last() == rs.last());
        assert(rs.drop_last()[i] == rs[i]);
    }
}

/// Appending a record adds its contribution to its own pool's sum and
/// nothing to any other pool's.
pub proof fn lemma_sum_push(rs: Seq<((String, String), RewardInfo)>, e: ((String, String),
    RewardInfo), pool: Seq<char>)
    ensures
        sum_pool_bonds(rs.push(e), pool) == sum_pool_bonds(rs, pool) + if e.0.1@ == pool {
            e.1.bond_amount as int
        } else {
            0
        },
{
    assert(rs.push(e).drop_last() =~= rs);
    assert(rs.push(e).last() == e);
}

/// Bond sums are never negative.
pub proof fn lemma_sum_nonneg(rs: Seq<((String, String), RewardInfo)>, pool: Seq<char>)
    ensures
        sum_pool_bonds(rs, pool) >= 0,
    decreases rs.len(),
{
    if rs.len() > 0 {
        lemma_sum_nonneg(rs.drop_last(), pool);
    }
}

/// One record's bonded amount never exceeds its own pool's bond sum.
pub proof fn lemma_record_le_sum(rs: Seq<((String, String), RewardInfo)>, i: int)
    requires
        0 <= i < rs.len(),
    ensures
        rs[i].1.bond_amount <= sum_pool_bonds(rs, rs[i].0.1@),
    decreases rs.len(),
{
    if i == rs.len() - 1 {
        lemma_sum_nonneg(rs.drop_last(), rs[i].0.1@);
    } else {
        lemma_record_le_sum(rs.drop_last(), i);
        assert(rs.drop_last()[i] == rs[i]);
    }
}

/// The whole state of the staking contract.
#[derive(Clone, Debug)]
pub struct StakingState {
    /// Owner, rewarder and fee-receiver identities.
    pub config: Config,
    /// Registered pools, keyed by staking token, in registration order.
    pub pools: Vec<(String, PoolInfo)>,
    /// Default unbonding delay per staking token, where one was set.
    pub unbonding_periods: Vec<(String, u64)>,
    /// Share records, keyed by (staker, staking token).
    pub rewards: Vec<((String, String), RewardInfo)>,
    /// Pool membership: the stakers that ever bonded, per pool, in
    /// first-bond order.
    pub stakers: Vec<(String, Vec<String>)>,
    /// Height-indexed balance history, keyed by (staking token, staker).
    pub balances: Vec<((String, String), History)>,
    /// Height-indexed pool-total history, keyed by staking token.
    pub totals: Vec<(String, History)>,
    /// Outstanding unbonding locks, keyed by (staking token, staker).
    pub locks: Vec<((String, String), LockQueue)>,
    /// Instant-unbonding fee schedules, keyed by staking token.
    pub fees: Vec<(String, FeeTable)>,
    /// Reward rates per asset, keyed by staking token.
    pub rewards_per_sec: Vec<(String, Vec<Asset>)>,
}

impl StakingState {
    /// Every pool's total equals the sum of its records' bonded amounts.
    pub open spec fn pools_consistent(&self) -> bool {
        forall|i: int|
            0 <= i < self.pools@.len() ==> (#[trigger] self.pools@[i]).1.total_bond_amount
                == sum_pool_bonds(self.rewards@, self.pools@[i].0@)
    }

    /// Every record belongs to a registered pool and its synchronized
    /// index never runs ahead of the pool's reward index.
    pub open spec fn indexes_bounded(&self) -> bool {
        forall|i: int|
            0 <= i < self.rewards@.len() ==> has_key(self.pools@, (#[trigger] self.rewards@[
            i]).0.1@) && self.rewards@[i].1.index.atomics <= lookup(
                self.pools@,
                self.rewards@[i].0.1@,
            ).reward_index.atomics
    }

    /// Well-formedness of the whole state.
    pub open spec fn wf(&self) -> bool {
        &&& unique_keys(self.pools@)
        &&& unique_keys(self.unbonding_periods@)
        &&& unique_keys(self.rewards@)
        &&& unique_keys(self.stakers@)
        &&& unique_keys(self.balances@)
        &&& unique_keys(self.totals@)
        &&& unique_keys(self.locks@)
        &&& unique_keys(self.fees@)
        &&& unique_keys(self.rewards_per_sec@)
        &&& forall|i: int|
            0 <= i < self.balances@.len() ==> (#[trigger] self.balances@[i]).1.wf()
        &&& forall|i: int| 0 <= i < self.totals@.len() ==> (#[trigger] self.totals@[i]).1.wf()
        &&& forall|i: int| 0 <= i < self.locks@.len() ==> (#[trigger] self.locks@[i]).1.wf()
        &&& forall|i: int| 0 <= i < self.fees@.len() ==> (#[trigger] self.fees@[i]).1.wf()
        &&& self.pools_consistent()
        &&& self.indexes_bounded()
    }

    /// A fresh state: the given identities, no pools, no records.
    pub fn new(config: Config) -> (r: Self)
        ensures
            r.wf(),
            r.config == config,
            r.pools@.len() == 0,
            r.unbonding_periods@.len() == 0,
            r.rewards@.len() == 0,
            r.stakers@.len() == 0,
            r.balances@.len() == 0,
            r.totals@.len() == 0,
            r.locks@.len() == 0,
            r.fees@.len() == 0,
            r.rewards_per_sec@.len() == 0,
    {
        StakingState {
            config,
            pools: Vec::new(),
            unbonding_periods: Vec::new(),
            rewards: Vec::new(),
            stakers: Vec::new(),
            balances: Vec::new(),
            totals: Vec::new(),
            locks: Vec::new(),
            fees: Vec::new(),
            rewards_per_sec: Vec::new(),
        }
    }

    /// Position of a pool's entry, if registered.
    pub fn find_pool(&self, token: &String) -> (r: Option<usize>)
        ensures
            match r {
                Some(i) => key_at(self.pools@, token@, i as int),
                None => !has_key(self.pools@, token@),
            },
    {
        let n = self.pools.len();
        let mut i: usize = 0;
        while i < n
            invariant
                n == self.pools@.len(),
                i <= n,
                forall|j: int| 0 <= j < i ==> (#[trigger] self.pools@[j]).0@ != token@,
            decreases n - i,
        {
            if self.pools[i].0 == *token {
                return Some(i);
            }
            i = i + 1;
        }
        proof {
            if has_key(self.pools@, token@) {
                let w = choose|w: int| key_at(self.pools@, token@, w);
                assert(self.pools@[w].0@ != token@);
            }
        }
        None
    }

    /// Position of a token's default unbonding period, if one was set.
    pub fn find_period(&self, token: &String) -> (r: Option<usize>)
        ensures
            match r {
                Some(i) => key_at(self.unbonding_periods@, token@, i as int),
                None => !has_key(self.unbonding_periods@, token@),
            },
    {
        let n = self.unbonding_periods.len();
        let mut i: usize = 0;
        while i < n
            invariant
                n == self.unbonding_periods@.len(),
                i <= n,
                forall|j: int|
                    0 <= j < i ==> (#[trigger] self.unbonding_periods@[j]).0@ != token@,
            decreases n - i,
        {
            if self.unbonding_periods[i].0 == *token {
                return Some(i);
            }
            i = i + 1;
        }
        proof {
            if has_key(self.unbonding_periods@, token@) {
                let w = choose|w: int| key_at(self.unbonding_periods@, token@, w);
                assert(self.unbonding_periods@[w].0@ != token@);
            }
        }
        None
    }

    /// Position of the (staker, token) share record, if one exists.
    pub fn find_record(&self, staker: &String, token: &String) -> (r: Option<usize>)
        ensures
            match r {
                Some(i) => key_at(self.rewards@, (staker@, token@), i as int),
                None => !has_key(self.rewards@, (staker@, token@)),
            },
    {
        let n = self.rewards.len();
        let mut i: usize = 0;
        while i < n
            invariant
                n == self.rewards@.len(),
                i <= n,
                forall|j: int|
                    0 <= j < i ==> (#[trigger] self.rewards@[j]).0@ != (staker@, token@),
            decreases n - i,
        {
            if self.rewards[i].0.0 == *staker && self.rewards[i].0.1 == *token {
                return Some(i);
            }
            i = i + 1;
        }
        proof {
            if has_key(self.rewards@, (staker@, token@)) {
                let w = choose|w: int| key_at(self.rewards@, (staker@, token@), w);
                assert(self.rewards@[w].0@ != (staker@, token@));
            }
        }
        None
    }

    /// Position of a pool's membership list, if any staker ever bonded.
    pub fn find_stakers(&self, token: &String) -> (r: Option<usize>)
        ensures
            match r {
                Some(i) => key_at(self.stakers@, token@, i as int),
                None => !has_key(self.stakers@, token@),
            },
    {
        let n = self.stakers.len();
        let mut i: usize = 0;
        while i < n
            invariant
                n == self.stakers@.len(),
                i <= n,
                forall|j: int| 0 <= j < i ==> (#[trigger] self.stakers@[j]).0@ != token@,
            decreases n - i,
        {
            if self.stakers[i].0 == *token {
                return Some(i);
            }
            i = i + 1;
        }
        proof {
            if has_key(self.stakers@, token@) {
                let w = choose|w: int| key_at(self.stakers@, token@, w);
                assert(self.stakers@[w].0@ != token@);
            }
        }
        None
    }

    /// Position of the (token, staker) balance history, if one exists.
    pub fn find_balance(&self, token: &String, staker: &String) -> (r: Option<usize>)
        ensures
            match r {
                Some(i) => key_at(self.balances@, (token@, staker@), i as int),
                None => !has_key(self.balances@, (token@, staker@)),
            },
    {
        let n = self.balances.len();
        let mut i: usize = 0;
        while i < n
            invariant
                n == self.balances@.len(),
                i <= n,
                forall|j: int|
                    0 <= j < i ==> (#[trigger] self.balances@[j]).0@ != (token@, staker@),
            decreases n - i,
        {
            if self.balances[i].0.0 == *token && self.balances[i].0.1 == *staker {
                return Some(i);
            }
            i = i + 1;
        }
        proof {
            if has_key(self.balances@, (token@, staker@)) {
                let w = choose|w: int| key_at(self.balances@, (token@, staker@), w);
                assert(self.balances@[w].0@ != (token@, staker@));
            }
        }
        None
    }

    /// Position of a pool's total history, if one exists.
    pub fn find_total(&self, token: &String) -> (r: Option<usize>)
        ensures
            match r {
                Some(i) => key_at(self.totals@, token@, i as int),
                None => !has_key(self.totals@, token@),
            },
    {
        let n = self.totals.len();
        let mut i: usize = 0;
        while i < n
            invariant
                n == self.totals@.len(),
                i <= n,
                forall|j: int| 0 <= j < i ==> (#[trigger] self.totals@[j]).0@ != token@,
            decreases n - i,
        {
            if self.totals[i].0 == *token {
                return Some(i);
            }
            i = i + 1;
        }
        proof {
            if has_key(self.totals@, token@) {
                let w = choose|w: int| key_at(self.totals@, token@, w);
                assert(self.totals@[w].0@ != token@);
            }
        }
        None
    }

    /// Position of the (token, staker) lock queue, if one exists.
    pub fn find_locks(&self, token: &String, staker: &String) -> (r: Option<usize>)
        ensures
            match r {
                Some(i) => key_at(self.locks@, (token@, staker@), i as int),
                None => !has_key(self.locks@, (token@, staker@)),
            },
    {
        let n = self.locks.len();
        let mut i: usize = 0;
        while i < n
            invariant
                n == self.locks@.len(),
                i <= n,
                forall|j: int| 0 <= j < i ==> (#[trigger] self.locks@[j]).0@ != (token@, staker@),
            decreases n - i,
        {
            if self.locks[i].0.0 == *token && self.locks[i].0.1 == *staker {
                return Some(i);
            }
            i = i + 1;
        }
        proof {
            if has_key(self.locks@, (token@, staker@)) {
                let w = choose|w: int| key_at(self.locks@, (token@, staker@), w);
                assert(self.locks@[w].0@ != (token@, staker@));
            }
        }
        None
    }

    /// Position of a pool's fee schedule, if one exists.
    pub fn find_fees(&self, token: &String) -> (r: Option<usize>)
        ensures
            match r {
                Some(i) => key_at(self.fees@, token@, i as int),
                None => !has_key(self.fees@, token@),
            },
    {
        let n = self.fees.len();
        let mut i: usize = 0;
        while i < n
            invariant
                n == self.fees@.len(),
                i <= n,
                forall|j: int| 0 <= j < i ==> (#[trigger] self.fees@[j]).0@ != token@,
            decreases n - i,
        {
            if self.fees[i].0 == *token {
                return Some(i);
            }
            i = i + 1;
        }
        proof {
            if has_key(self.fees@, token@) {
                let w = choose|w: int| key_at(self.fees@, token@, w);
                assert(self.fees@[w].0@ != token@);
            }
        }
        None
    }

    /// Position of a pool's reward rates, if any were set.
    pub fn find_rps(&self, token: &String) -> (r: Option<usize>)
        ensures
            match r {
                Some(i) => key_at(self.rewards_per_sec@, token@, i as int),
                None => !has_key(self.rewards_per_sec@, token@),
            },
    {
        let n = self.rewards_per_sec.len();
        let mut i: usize = 0;
        while i < n
            invariant
                n == self.rewards_per_sec@.len(),
                i <= n,
                forall|j: int| 0 <= j < i ==> (#[trigger] self.rewards_per_sec@[j]).0@ != token@,
            decreases n - i,
        {
            if self.rewards_per_sec[i].0 == *token {
                return Some(i);
            }
            i = i + 1;
        }
        proof {
            if has_key(self.rewards_per_sec@, token@) {
                let w = choose|w: int| key_at(self.rewards_per_sec@, token@, w);
                assert(self.rewards_per_sec@[w].0@ != token@);
            }
        }
        None
    }
}

/// In every well-formed state, each pool's bonded total equals the sum
/// of the bonded amounts over all staker records of that pool.
pub proof fn lemma_pool_total_is_bond_sum(s: StakingState, token: Seq<char>)
    requires
        s.wf(),
        has_key(s.pools@, token),
    ensures
        lookup(s.pools@, token).total_bond_amount == sum_pool_bonds(s.rewards@, token),
{
    let i = crate::assoc::index_of(s.pools@, token);
    assert(key_at(s.pools@, token, i));
    crate::assoc::lemma_key_at_index_of(s.pools@, token, i);
}

/// In every well-formed state, a staker's synchronized reward index
/// never runs ahead of its pool's reward index.
pub proof fn lemma_record_index_bounded(s: StakingState, staker: Seq<char>, token: Seq<char>)
    requires
        s.wf(),
        has_key(s.rewards@, (staker, token)),
    ensures
        has_key(s.pools@, token),
        lookup(s.rewards@, (staker, token)).index.atomics <= lookup(
            s.pools@,
            token,
        ).reward_index.atomics,
{
    let i = crate::assoc::index_of(s.rewards@, (staker, token));
    assert(key_at(s.rewards@, (staker, token), i));
    crate::assoc::lemma_key_at_index_of(s.rewards@, (staker, token), i);
}

} // verus!
