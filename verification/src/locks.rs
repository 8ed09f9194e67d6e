//! The unbonding lock queue of one (pool, staker) position.
//!
//! Every delayed unbond adds one entry; entries are kept ordered by
//! maturation time (ties keep insertion order) and are removed in batch,
//! either once matured or all at once on a restake.  A position holds at
//! most `MAX_LIMIT` outstanding entries; an insertion past the cap is
//! rejected, leaving the queue unchanged.

use vstd::prelude::*;
use crate::errors::StakingError;

verus! {

/// The most lock entries one (pool, staker) position may hold, and the
/// largest page a lock enumeration returns.
pub const MAX_LIMIT: u32 = 30;

/// The page size a lock enumeration uses when the caller gives none.
pub const DEFAULT_LIMIT: u32 = 10;

/// A pending, not yet released unbonded amount with its maturation time.
#[derive(Clone, Copy, Debug, PartialEq, Eq, Structural)]
pub struct LockInfo {
    /// Amount owed to the staker, net of any instant-unbond fee.
    pub amount: u128,
    /// Absolute time (in seconds) at which the amount matures.
    pub unlock_time: u64,
}

/// Entries are ordered by non-decreasing maturation time.
pub open spec fn times_sorted(s: Seq<LockInfo>) -> bool {
    forall|i: int, j: int| 0 <= i < j < s.len() ==> s[i].unlock_time <= s[j].unlock_time
}

/// Where a new entry with time `t` goes: after every entry with time at
/// most `t`, before the rest.
pub open spec fn lock_insert(s: Seq<LockInfo>, e: LockInfo) -> Seq<LockInfo>
    decreases s.len(),
{
    if s.len() == 0 {
        seq![e]
    } else if s.last().unlock_time <= e.unlock_time {
        s.push(e)
    } else {
        lock_insert(s.drop_last(), e).push(s.last())
    }
}

/// The length of the matured prefix: entries with time at most `now`.
pub open spec fn matured_len(s: Seq<LockInfo>, now: u64) -> int
    decreases s.len(),
{
    if s.len() == 0 {
        0
    } else if s[0].unlock_time <= now {
        1 + matured_len(s.drop_first(), now)
    } else {
        0
    }
}

/// The total amount held by the entries of `s`.
pub open spec fn sum_amounts(s: Seq<LockInfo>) -> int
    decreases s.len(),
{
    if s.len() == 0 {
        0
    } else {
        sum_amounts(s.drop_last()) + s.last().amount
    }
}

/// What `matured_len` returns: the longest prefix of matured entries,
/// ending either at the end of the queue or just before an unmatured
/// entry.
pub proof fn lemma_matured_len_char(s: Seq<LockInfo>, now: u64)
    ensures
        0 <= matured_len(s, now) <= s.len(),
        forall|j: int| 0 <= j < matured_len(s, now) ==> #[trigger] s[j].unlock_time <= now,
        matured_len(s, now) < s.len() ==> s[matured_len(s, now)].unlock_time > now,
    decreases s.len(),
{
    if s.len() > 0 && s[0].unlock_time <= now {
        lemma_matured_len_char(s.drop_first(), now);
        assert forall|j: int| 0 <= j < matured_len(s, now) implies #[trigger] s[j].unlock_time
            <= now by {
            if j > 0 {
                assert(s.drop_first()[j - 1] == s[j]);
            }
        }
        if matured_len(s, now) < s.len() {
            assert(s.drop_first()[matured_len(s, now) - 1] == s[matured_len(s, now)]);
        }
    }
}

/// Only one index can mark the end of the matured prefix.
pub proof fn lemma_matured_len_exact(s: Seq<LockInfo>, now: u64, i: int)
    requires
        0 <= i <= s.len(),
        forall|j: int| 0 <= j < i ==> #[trigger] s[j].unlock_time <= now,
        i < s.len() ==> s[i].unlock_time > now,
    ensures
        matured_len(s, now) == i,
{
    lemma_matured_len_char(s, now);
    let ml = matured_len(s, now);
    if i < ml {
        assert(s[i].unlock_time <= now);
        assert(false);
    }
    if ml < i {
        assert(s[ml].unlock_time <= now);
        assert(false);
    }
}

/// Draining the matured prefix twice without time advancing is the same
/// as draining it once: the second drain finds nothing matured.
pub proof fn lemma_drain_idempotent(s: Seq<LockInfo>, now: u64)
    ensures
        matured_len(s.skip(matured_len(s, now)), now) == 0,
        sum_amounts(s.skip(matured_len(s, now)).take(0)) == 0,
{
    lemma_matured_len_char(s, now);
    let ml = matured_len(s, now);
    let t = s.skip(ml);
    if t.len() > 0 {
        assert(t[0] == s[ml]);
        assert(t[0].unlock_time > now);
    }
    assert(t.take(0).len() == 0);
}

/// The page a lock enumeration returns: ascending entries after the
/// cursor, or descending entries before it, capped at the given (or
/// default) limit, never more than `MAX_LIMIT`.
pub open spec fn spec_page(s: Seq<LockInfo>, start_after: Option<u64>, limit: Option<u32>,
    descending: bool) -> Seq<LockInfo> {
    let cap = if limit is Some {
        if limit->0 > MAX_LIMIT {
            MAX_LIMIT as int
        } else {
            limit->0 as int
        }
    } else {
        DEFAULT_LIMIT as int
    };
    if descending {
        let upper = match start_after {
            Some(sa) => lower_len(s, sa),
            None => s.len() as int,
        };
        s.take(upper).reverse().take(
            if cap < upper {
                cap
            } else {
                upper
            },
        )
    } else {
        let lower = match start_after {
            Some(sa) => matured_len(s, sa),
            None => 0int,
        };
        s.skip(lower).take(
            if cap < s.len() - lower {
                cap
            } else {
                s.len() - lower
            },
        )
    }
}


/// The unbonding lock queue of one (pool, staker) position.
#[derive(Clone, Debug)]
pub struct LockQueue {
    pub entries: Vec<LockInfo>,
}

impl View for LockQueue {
    type V = Seq<LockInfo>;

    open spec fn view(&self) -> Seq<LockInfo> {
        self.entries@
    }
}

impl LockQueue {
    /// Well-formed: ordered by maturation time and within the cap.
    pub open spec fn wf(&self) -> bool {
        times_sorted(self@) && self@.len() <= MAX_LIMIT
    }

    /// An empty queue.
    pub fn new() -> (r: Self)
        ensures
            r@ =~= Seq::<LockInfo>::empty(),
            r.wf(),
    {
        LockQueue { entries: Vec::new() }
    }

    /// The number of outstanding entries.
    pub fn len(&self) -> (r: usize)
        ensures
            r == self@.len(),
    {
        self.entries.len()
    }

    /// Insert a new entry at its place in time order (after entries with
    /// the same time).  Rejected with `TooManyLocks`, and the queue left
    /// unchanged, when the position already holds `MAX_LIMIT` entries.
    pub fn insert(&mut self, e: LockInfo) -> (r: Result<(), StakingError>)
        requires
            old(self).wf(),
        ensures
            old(self)@.len() < MAX_LIMIT ==> r is Ok && final(self)@ =~= lock_insert(
                old(self)@,
                e,
            ),
            old(self)@.len() >= MAX_LIMIT ==> r == Err::<(), StakingError>(
                StakingError::TooManyLocks,
            ) && final(self)@ =~= old(self)@,
            final(self).wf(),
    {
        if self.entries.len() >= MAX_LIMIT as usize {
            return Err(StakingError::TooManyLocks);
        }
        let ghost s = self@;
        let mut i = self.entries.len();
        proof {
            assert(s.take(i as int) =~= s);
            assert(s.skip(i as int) =~= Seq::<LockInfo>::empty());
            assert(lock_insert(s.take(i as int), e) + s.skip(i as int) =~= lock_insert(s, e));
        }
        while i > 0 && self.entries[i - 1].unlock_time > e.unlock_time
            invariant
                i <= self.entries.len(),
                self@ == s,
                old(self)@ == s,
                times_sorted(s),
                s.len() < MAX_LIMIT,
                lock_insert(s, e) =~= lock_insert(s.take(i as int), e) + s.skip(i as int),
                forall|j: int| i <= j < s.len() ==> #[trigger] s[j].unlock_time > e.unlock_time,
            decreases i,
        {
            proof {
                let p = s.take(i as int);
                assert(p.last() == s[i - 1]);
                assert(p.drop_last() =~= s.take(i as int - 1));
                assert(lock_insert(p, e) == lock_insert(s.take(i as int - 1), e).push(s[i - 1]));
                assert(lock_insert(s.take(i as int - 1), e).push(s[i - 1]) + s.skip(i as int)
                    =~= lock_insert(s.take(i as int - 1), e) + s.skip(i as int - 1));
            }
            i = i - 1;
        }
        proof {
            let p = s.take(i as int);
            if i > 0 {
                assert(p.last() == s[i - 1]);
                assert(p.drop_last() =~= s.take(i as int - 1));
                assert(lock_insert(p, e) == p.push(e));
            } else {
                assert(p.len() == 0);
                assert(lock_insert(p, e) =~= seq![e]);
                assert(p.push(e) =~= seq![e]);
            }
            assert(lock_insert(s, e) =~= s.take(i as int).push(e) + s.skip(i as int));
            assert(s.take(i as int).push(e) + s.skip(i as int) =~= s.insert(i as int, e));
        }
        self.entries.insert(i, e);
        proof {
            let t = self@;
            assert(t =~= lock_insert(s, e));
            assert forall|a: int, b: int| 0 <= a < b < t.len() implies t[a].unlock_time
                <= t[b].unlock_time by {
                assert(times_sorted(s));
                if a < i && b > i {
                    assert(t[a] == s[a] && t[b] == s[b - 1]);
                } else if a < i && b == i {
                    assert(t[a] == s[a]);
                    assert(s[a].unlock_time <= e.unlock_time || a >= i);
                } else if a == i && b > i {
                    assert(t[b] == s[b - 1]);
                    assert(s[b - 1].unlock_time > e.unlock_time);
                } else if a > i && b > i {
                    assert(t[a] == s[a - 1] && t[b] == s[b - 1]);
                }
            }
        }
        Ok(())
    }

    /// The number of matured entries (time at most `now`).
    pub fn matured_count(&self, now: u64) -> (r: usize)
        requires
            self.wf(),
        ensures
            r == matured_len(self@, now),
    {
        let ghost s = self@;
        let mut i: usize = 0;
        while i < self.entries.len() && self.entries[i].unlock_time <= now
            invariant
                self@ == s,
                i <= s.len(),
                times_sorted(s),
                forall|j: int| 0 <= j < i ==> #[trigger] s[j].unlock_time <= now,
            decreases s.len() - i,
        {
            i = i + 1;
        }
        proof {
            lemma_matured_len_exact(s, now, i as int);
        }
        i
    }

    /// The sum of every entry's amount, without removing anything.
    pub fn total_amount(&self) -> (r: Result<u128, StakingError>)
        requires
            self.wf(),
        ensures
            ({
                let total = sum_amounts(self@);
                if total <= u128::MAX {
                    r == Ok::<u128, StakingError>(total as u128)
                } else {
                    r == Err::<u128, StakingError>(StakingError::Overflow)
                }
            }),
    {
        let ghost s = self@;
        let mut i: usize = 0;
        let mut total: u128 = 0;
        proof {
            assert(s.take(0).len() == 0);
        }
        while i < self.entries.len()
            invariant
                self@ == s,
                i <= s.len(),
                total == sum_amounts(s.take(i as int)),
            decreases s.len() - i,
        {
            proof {
                assert(s.take(i as int + 1).drop_last() =~= s.take(i as int));
                assert(s.take(i as int + 1).last() == s[i as int]);
            }
            total = match total.checked_add(self.entries[i].amount) {
                Some(t) => t,
                None => {
                    proof {
                        lemma_sum_prefix_monotonic(s, i as int + 1, s.len() as int);
                        assert(s.take(s.len() as int) =~= s);
                    }
                    return Err(StakingError::Overflow);
                },
            };
            i = i + 1;
        }
        proof {
            assert(s.take(s.len() as int) =~= s);
        }
        Ok(total)
    }

    /// The sum of the matured entries' amounts, without removing anything.
    pub fn matured_amount(&self, now: u64) -> (r: Result<u128, StakingError>)
        requires
            self.wf(),
        ensures
            ({
                let total = sum_amounts(self@.take(matured_len(self@, now)));
                if total <= u128::MAX {
                    r == Ok::<u128, StakingError>(total as u128)
                } else {
                    r == Err::<u128, StakingError>(StakingError::Overflow)
                }
            }),
    {
        let ghost s = self@;
        proof {
            lemma_matured_len_char(s, now);
        }
        let mut i: usize = 0;
        let mut total: u128 = 0;
        proof {
            assert(s.take(0).len() == 0);
        }
        while i < self.entries.len() && self.entries[i].unlock_time <= now
            invariant
                self@ == s,
                i <= s.len(),
                times_sorted(s),
                forall|j: int| 0 <= j < i ==> #[trigger] s[j].unlock_time <= now,
                total == sum_amounts(s.take(i as int)),
            decreases s.len() - i,
        {
            proof {
                assert(s.take(i as int + 1).drop_last() =~= s.take(i as int));
                assert(s.take(i as int + 1).last() == s[i as int]);
            }
            total = match total.checked_add(self.entries[i].amount) {
                Some(t) => t,
                None => {
                    proof {
                        lemma_matured_len_char(s, now);
                        lemma_matured_len_exact_ge(s, now, i as int + 1);
                        lemma_sum_prefix_monotonic(s, i as int + 1, matured_len(s, now));
                    }
                    return Err(StakingError::Overflow);
                },
            };
            i = i + 1;
        }
        proof {
            lemma_matured_len_exact(s, now, i as int);
        }
        Ok(total)
    }

    /// Remove every matured entry (time at most `now`) and return the sum
    /// of their amounts; zero when nothing matured.  Fails with `Overflow`,
    /// removing nothing, when the sum does not fit.
    pub fn drain_matured(&mut self, now: u64) -> (r: Result<u128, StakingError>)
        requires
            old(self).wf(),
        ensures
            ({
                let ml = matured_len(old(self)@, now);
                let total = sum_amounts(old(self)@.take(ml));
                if total <= u128::MAX {
                    r == Ok::<u128, StakingError>(total as u128) && final(self)@ =~= old(
                        self,
                    )@.skip(ml)
                } else {
                    r == Err::<u128, StakingError>(StakingError::Overflow) && final(self)@
                        =~= old(self)@
                }
            }),
            final(self).wf(),
    {
        let ghost s = self@;
        proof {
            lemma_matured_len_char(s, now);
        }
        let mut i: usize = 0;
        let mut total: u128 = 0;
        proof {
            assert(s.take(0).len() == 0);
        }
        while i < self.entries.len() && self.entries[i].unlock_time <= now
            invariant
                self@ == s,
                old(self)@ == s,
                i <= s.len(),
                times_sorted(s),
                s.len() <= MAX_LIMIT,
                forall|j: int| 0 <= j < i ==> #[trigger] s[j].unlock_time <= now,
                total == sum_amounts(s.take(i as int)),
            decreases s.len() - i,
        {
            proof {
                assert(s.take(i as int + 1).drop_last() =~= s.take(i as int));
                assert(s.take(i as int + 1).last() == s[i as int]);
            }
            total = match total.checked_add(self.entries[i].amount) {
                Some(t) => t,
                None => {
                    proof {
                        lemma_matured_len_char(s, now);
                        lemma_matured_len_exact_ge(s, now, i as int + 1);
                        lemma_sum_prefix_monotonic(s, i as int + 1, matured_len(s, now));
                    }
                    return Err(StakingError::Overflow);
                },
            };
            i = i + 1;
        }
        proof {
            lemma_matured_len_exact(s, now, i as int);
        }
        let tail = self.entries.split_off(i);
        self.entries = tail;
        proof {
            let t = self@;
            assert(t =~= s.skip(i as int));
            assert forall|a: int, b: int| 0 <= a < b < t.len() implies t[a].unlock_time
                <= t[b].unlock_time by {
                assert(t[a] == s[a + i] && t[b] == s[b + i]);
            }
        }
        Ok(total)
    }

    /// Remove every entry regardless of maturity and return the sum of
    /// their amounts (used by restake, where funds never leave custody).
    /// Fails with `Overflow`, removing nothing, when the sum does not fit.
    pub fn drain_all(&mut self) -> (r: Result<u128, StakingError>)
        requires
            old(self).wf(),
        ensures
            ({
                let total = sum_amounts(old(self)@);
                if total <= u128::MAX {
                    r == Ok::<u128, StakingError>(total as u128) && final(self)@ =~= Seq::<
                        LockInfo,
                    >::empty()
                } else {
                    r == Err::<u128, StakingError>(StakingError::Overflow) && final(self)@
                        =~= old(self)@
                }
            }),
            final(self).wf(),
    {
        let ghost s = self@;
        let mut i: usize = 0;
        let mut total: u128 = 0;
        proof {
            assert(s.take(0).len() == 0);
        }
        while i < self.entries.len()
            invariant
                self@ == s,
                old(self)@ == s,
                i <= s.len(),
                times_sorted(s),
                s.len() <= MAX_LIMIT,
                total == sum_amounts(s.take(i as int)),
            decreases s.len() - i,
        {
            proof {
                assert(s.take(i as int + 1).drop_last() =~= s.take(i as int));
                assert(s.take(i as int + 1).last() == s[i as int]);
            }
            total = match total.checked_add(self.entries[i].amount) {
                Some(t) => t,
                None => {
                    proof {
                        lemma_sum_prefix_monotonic(s, i as int + 1, s.len() as int);
                        assert(s.take(s.len() as int) =~= s);
                    }
                    return Err(StakingError::Overflow);
                },
            };
            i = i + 1;
        }
        proof {
            assert(s.take(s.len() as int) =~= s);
        }
        self.entries.clear();
        Ok(total)
    }

    
/// The entries of one page, ordered by maturation time.
    ///
    /// Ascending: entries strictly after `start_after` (all of them when
    /// `None`).  Descending: entries strictly before `start_after` (all
    /// when `None`), newest first.  At most `limit` entries are returned,
    /// never more than `MAX_LIMIT`; a missing `limit` means
    /// `DEFAULT_LIMIT`.
    pub fn list(&self, start_after: Option<u64>, limit: Option<u32>, descending: bool) -> (r:
        Vec<LockInfo>)
        requires
            self.wf(),
        ensures
            r@ =~= spec_page(self@, start_after, limit, descending),
    {
        let cap: usize = match limit {
            Some(l) => if l > MAX_LIMIT {
                MAX_LIMIT as usize
            } else {
                l as usize
            },
            None => DEFAULT_LIMIT as usize,
        };
        let ghost s = self@;
        let n = self.entries.len();
        let mut out: Vec<LockInfo> = Vec::new();
        if descending {
            let mut upper: usize = match start_after {
                Some(sa) => {
                    let mut u: usize = 0;
                    while u < n && self.entries[u].unlock_time < sa
                        invariant
                            self@ == s,
                            n == s.len(),
                            u <= n,
                            times_sorted(s),
                            forall|j: int| 0 <= j < u ==> #[trigger] s[j].unlock_time < sa,
                        decreases n - u,
                    {
                        u = u + 1;
                    }
                    proof {
                        lemma_lower_len_exact(s, sa, u as int);
                    }
                    u
                },
                None => n,
            };
            let ghost up = upper as int;
            let ghost base = s.take(up).reverse();
            let ghost want = if (cap as int) < up {
                cap as int
            } else {
                up
            };
            while upper > 0 && out.len() < cap
                invariant
                    self@ == s,
                    n == s.len(),
                    upper <= up,
                    want == if (cap as int) < up {
                        cap as int
                    } else {
                        up
                    },
                    out@.len() == up - upper,
                    out@.len() <= want,
                    out@ =~= base.take(up - upper),
                    base == s.take(up).reverse(),
                    up <= n,
                    0 <= want,
                decreases upper,
            {
                proof {
                    assert(base[up - upper] == s.take(up)[up - (up - upper) - 1]);
                    assert(s.take(up)[upper - 1] == s[upper - 1]);
                    assert(base.take(up - upper + 1) =~= base.take(up - upper).push(
                        base[up - upper],
                    ));
                }
                out.push(self.entries[upper - 1]);
                upper = upper - 1;
            }
            proof {
                assert(out@.len() == want || out@.len() == cap);
                assert(out@ =~= base.take(want));
            }
        } else {
            let mut lower: usize = match start_after {
                Some(sa) => {
                    let mut u: usize = 0;
                    while u < n && self.entries[u].unlock_time <= sa
                        invariant
                            self@ == s,
                            n == s.len(),
                            u <= n,
                            forall|j: int| 0 <= j < u ==> #[trigger] s[j].unlock_time <= sa,
                        decreases n - u,
                    {
                        u = u + 1;
                    }
                    proof {
                        lemma_matured_len_exact(s, sa, u as int);
                    }
                    u
                },
                None => 0,
            };
            let ghost lo = lower as int;
            let ghost avail = s.len() - lo;
            let ghost want = if (cap as int) < avail {
                cap as int
            } else {
                avail
            };
            while lower < n && out.len() < cap
                invariant
                    self@ == s,
                    n == s.len(),
                    0 <= lo,
                    lo <= lower <= n,
                    out@.len() == lower - lo,
                    out@.len() <= want,
                    want == if (cap as int) < s.len() - lo {
                        cap as int
                    } else {
                        s.len() - lo
                    },
                    out@ =~= s.skip(lo).take(lower - lo),
                decreases n - lower,
            {
                proof {
                    assert(s.skip(lo).len() == s.len() - lo);
                    assert(s.skip(lo)[lower - lo] == s[lower as int]);
                    assert(s.skip(lo).take(lower - lo + 1) =~= s.skip(lo).take(lower - lo).push(
                        s.skip(lo)[lower - lo],
                    ));
                }
                out.push(self.entries[lower]);
                lower = lower + 1;
            }
            proof {
                assert(out@ =~= s.skip(lo).take(want));
            }
        }
        out
    }
}

/// The number of entries strictly before time `t` in a sorted queue.
pub open spec fn lower_len(s: Seq<LockInfo>, t: u64) -> int
    decreases s.len(),
{
    if s.len() == 0 {
        0
    } else if s[0].unlock_time < t {
        1 + lower_len(s.drop_first(), t)
    } else {
        0
    }
}

/// Only one index can mark the end of the strictly-earlier prefix.
pub proof fn lemma_lower_len_exact(s: Seq<LockInfo>, t: u64, i: int)
    requires
        times_sorted(s),
        0 <= i <= s.len(),
        forall|j: int| 0 <= j < i ==> #[trigger] s[j].unlock_time < t,
        i < s.len() ==> s[i].unlock_time >= t,
    ensures
        lower_len(s, t) == i,
    decreases s.len(),
{
    if s.len() > 0 {
        if s[0].unlock_time < t {
            assert forall|j: int| 0 <= j < i - 1 implies #[trigger] s.drop_first()[j].unlock_time
                < t by {
                assert(s.drop_first()[j] == s[j + 1]);
            }
            if i == 0 {
                assert(s[0].unlock_time >= t);
                assert(false);
            }
            assert(i - 1 < s.drop_first().len() ==> s.drop_first()[i - 1].unlock_time >= t);
            assert forall|a: int, b: int| 0 <= a < b < s.drop_first().len() implies s.drop_first()[
                a
            ].unlock_time <= s.drop_first()[b].unlock_time by {
                assert(s.drop_first()[a] == s[a + 1] && s.drop_first()[b] == s[b + 1]);
            }
            lemma_lower_len_exact(s.drop_first(), t, i - 1);
        } else {
            if i > 0 {
                assert(s[0].unlock_time < t);
                assert(false);
            }
        }
    }
}

/// Needed when a drain overflows: the matured prefix is at least as long
/// as what the drain loop has already summed.
proof fn lemma_matured_len_exact_ge(s: Seq<LockInfo>, now: u64, i: int)
    requires
        times_sorted(s),
        0 <= i <= s.len(),
        forall|j: int| 0 <= j < i ==> #[trigger] s[j].unlock_time <= now,
    ensures
        matured_len(s, now) >= i,
{
    lemma_matured_len_char(s, now);
    let ml = matured_len(s, now);
    if ml < i {
        assert(s[ml].unlock_time <= now);
        assert(false);
    }
}

/// Amounts are non-negative, so the sum over a longer prefix is at least
/// the sum over a shorter one.
pub proof fn lemma_sum_prefix_monotonic(s: Seq<LockInfo>, i: int, j: int)
    requires
        0 <= i <= j <= s.len(),
    ensures
        sum_amounts(s.take(i)) <= sum_amounts(s.take(j)),
    decreases j - i,
{
    if i < j {
        lemma_sum_prefix_monotonic(s, i, j - 1);
        assert(s.take(j).drop_last() =~= s.take(j - 1));
        assert(s.take(j).last() == s[j - 1]);
    }
}

} // verus!
