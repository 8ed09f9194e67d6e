//! The instant-unbonding fee schedule of one pool.
//!
//! Each entry maps an unbonding period to the fee fraction charged when a
//! staker asks for release after exactly that period instead of the pool's
//! default delay.  Entries are kept sorted by period so enumeration is
//! ascending.

use vstd::prelude::*;
use crate::decimal::{Decimal, FRACTIONAL};

verus! {

/// Periods are strictly increasing (sorted, no duplicates).
pub open spec fn periods_sorted(s: Seq<(u64, Decimal)>) -> bool {
    forall|i: int, j: int| 0 <= i < j < s.len() ==> s[i].0 < s[j].0
}

/// Every fee fraction is at most one.
pub open spec fn fees_bounded(s: Seq<(u64, Decimal)>) -> bool {
    forall|i: int| 0 <= i < s.len() ==> (#[trigger] s[i].1).atomics <= FRACTIONAL
}

/// Whether some entry carries period `p`.
pub open spec fn has_period(s: Seq<(u64, Decimal)>, p: u64) -> bool {
    exists|i: int| 0 <= i < s.len() && (#[trigger] s[i]).0 == p
}

/// The fee registered for period `p` (meaningful when `has_period`).
pub open spec fn fee_of(s: Seq<(u64, Decimal)>, p: u64) -> Decimal {
    s[choose|i: int| 0 <= i < s.len() && (#[trigger] s[i]).0 == p].1
}

/// The fee schedule of one pool, ascending by period.
#[derive(Clone, Debug)]
pub struct FeeTable {
    pub entries: Vec<(u64, Decimal)>,
}

impl View for FeeTable {
    type V = Seq<(u64, Decimal)>;

    open spec fn view(&self) -> Seq<(u64, Decimal)> {
        self.entries@
    }
}

impl FeeTable {
    /// Well-formed: sorted by period, every fee within [0, 1].
    pub open spec fn wf(&self) -> bool {
        periods_sorted(self@) && fees_bounded(self@)
    }

    /// An empty schedule.
    pub fn new() -> (r: Self)
        ensures
            r@ =~= Seq::<(u64, Decimal)>::empty(),
            r.wf(),
    {
        FeeTable { entries: Vec::new() }
    }

    /// The fee registered for period `p`, if any.
    pub fn get(&self, p: u64) -> (r: Option<Decimal>)
        requires
            self.wf(),
        ensures
            has_period(self@, p) ==> r == Some(fee_of(self@, p)),
            !has_period(self@, p) ==> r is None,
    {
        let n = self.entries.len();
        let mut i: usize = 0;
        while i < n
            invariant
                self.wf(),
                n == self@.len(),
                i <= n,
                forall|j: int| 0 <= j < i ==> (#[trigger] self@[j]).0 != p,
            decreases n - i,
        {
            if self.entries[i].0 == p {
                proof {
                    let w = choose|w: int| 0 <= w < self@.len() && (#[trigger] self@[w]).0 == p;
                    assert(self@[i as int].0 == p);
                    assert(has_period(self@, p));
                    if w != i {
                        assert(self@[w].0 == p && self@[i as int].0 == p);
                        assert(false);
                    }
                }
                return Some(self.entries[i].1);
            }
            i = i + 1;
        }
        proof {
            if has_period(self@, p) {
                let w = choose|w: int| 0 <= w < self@.len() && (#[trigger] self@[w]).0 == p;
                assert(self@[w].0 != p);
            }
        }
        None
    }

    /// Register or replace the fee for period `p`.  The caller has already
    /// checked the fee bound.
    pub fn set(&mut self, p: u64, fee: Decimal)
        requires
            old(self).wf(),
            fee.atomics <= FRACTIONAL,
        ensures
            final(self).wf(),
            has_period(final(self)@, p),
            fee_of(final(self)@, p) == fee,
            forall|q: u64|
                q != p ==> #[trigger] has_period(final(self)@, q) == has_period(old(self)@, q),
            forall|q: u64|
                q != p && has_period(old(self)@, q) ==> #[trigger] fee_of(final(self)@, q)
                    == fee_of(old(self)@, q),
    {
        let ghost s = self@;
        let n = self.entries.len();
        let mut i: usize = 0;
        while i < n && self.entries[i].0 < p
            invariant
                self@ == s,
                old(self)@ == s,
                periods_sorted(s),
                fees_bounded(s),
                n == s.len(),
                i <= n,
                forall|j: int| 0 <= j < i ==> (#[trigger] s[j]).0 < p,
            decreases n - i,
        {
            i = i + 1;
        }
        if i < n && self.entries[i].0 == p {
            self.entries[i] = (p, fee);
        } else {
            self.entries.insert(i, (p, fee));
        }
        proof {
            let t = self@;
            assert forall|a: int, b: int| 0 <= a < b < t.len() implies t[a].0 < t[b].0 by {
                if i < n && s[i as int].0 == p {
                    if a != i && b != i {
                        assert(t[a] == s[a] && t[b] == s[b]);
                    }
                } else {
                    if a < i && b > i {
                        assert(t[a] == s[a] && t[b] == s[b - 1]);
                    } else if a < i && b == i {
                        assert(t[a] == s[a]);
                    } else if a == i && b > i {
                        assert(t[b] == s[b - 1]);
                        assert(s[b - 1].0 >= p);
                        assert(s[b - 1].0 != p || b - 1 > i ==> true);
                        if s[b - 1].0 == p {
                            assert(b - 1 >= i);
                            if b - 1 == i {
                                assert(i < n && s[i as int].0 == p);
                                assert(false);
                            } else {
                                assert(s[i as int].0 < s[b - 1].0 || i == b - 1);
                                assert(i < n ==> s[i as int].0 >= p);
                                assert(false);
                            }
                        }
                    } else if a > i && b > i {
                        assert(t[a] == s[a - 1] && t[b] == s[b - 1]);
                    }
                }
            }
            assert forall|j: int| 0 <= j < t.len() implies (#[trigger] t[j]).1.atomics
                <= FRACTIONAL by {
                if i < n && s[i as int].0 == p {
                    if j != i {
                        assert(t[j] == s[j]);
                    }
                } else {
                    if j < i {
                        assert(t[j] == s[j]);
                    } else if j > i {
                        assert(t[j] == s[j - 1]);
                    }
                }
            }
            lemma_set_frames(s, t, i as int, p, fee, n as int);
        }
    }

    /// Remove the fee for period `p`; removing an absent period changes
    /// nothing.
    pub fn remove(&mut self, p: u64)
        requires
            old(self).wf(),
        ensures
            final(self).wf(),
            !has_period(final(self)@, p),
            forall|q: u64|
                q != p ==> #[trigger] has_period(final(self)@, q) == has_period(old(self)@, q),
            forall|q: u64|
                q != p && has_period(old(self)@, q) ==> #[trigger] fee_of(final(self)@, q)
                    == fee_of(old(self)@, q),
    {
        let ghost s = self@;
        let n = self.entries.len();
        let mut i: usize = 0;
        while i < n
            invariant
                self@ == s,
                old(self)@ == s,
                periods_sorted(s),
                fees_bounded(s),
                n == s.len(),
                i <= n,
                forall|j: int| 0 <= j < i ==> (#[trigger] s[j]).0 != p,
            decreases n - i,
        {
            if self.entries[i].0 == p {
                self.entries.remove(i);
                proof {
                    let t = self@;
                    assert forall|a: int, b: int| 0 <= a < b < t.len() implies t[a].0 < t[b].0 by {
                        assert(t[a] == if a < i {
                            s[a]
                        } else {
                            s[a + 1]
                        });
                        assert(t[b] == if b < i {
                            s[b]
                        } else {
                            s[b + 1]
                        });
                    }
                    assert forall|j: int| 0 <= j < t.len() implies (#[trigger] t[j]).1.atomics
                        <= FRACTIONAL by {
                        assert(t[j] == if j < i {
                            s[j]
                        } else {
                            s[j + 1]
                        });
                    }
                    lemma_remove_frames(s, t, i as int, p);
                }
                return ;
            }
            i = i + 1;
        }
        proof {
            if has_period(s, p) {
                let w = choose|w: int| 0 <= w < s.len() && (#[trigger] s[w]).0 == p;
                assert(s[w].0 != p);
            }
        }
    }

    /// All entries, ascending by period.
    pub fn list(&self) -> (r: Vec<(u64, Decimal)>)
        ensures
            r@ == self@,
    {
        let mut out: Vec<(u64, Decimal)> = Vec::new();
        let n = self.entries.len();
        let mut i: usize = 0;
        while i < n
            invariant
                n == self@.len(),
                i <= n,
                out@ =~= self@.take(i as int),
            decreases n - i,
        {
            proof {
                assert(self@.take(i as int + 1) =~= self@.take(i as int).push(self@[i as int]));
            }
            out.push(self.entries[i]);
            i = i + 1;
        }
        proof {
            assert(self@.take(n as int) =~= self@);
        }
        out
    }
}

/// After a set at position `i`, every other period keeps its binding.
proof fn lemma_set_frames(s: Seq<(u64, Decimal)>, t: Seq<(u64, Decimal)>, i: int, p: u64, fee:
    Decimal, n: int)
    requires
        periods_sorted(s),
        periods_sorted(t),
        n == s.len(),
        0 <= i <= n,
        forall|j: int| 0 <= j < i ==> (#[trigger] s[j]).0 < p,
        i < n && s[i].0 == p ==> t =~= s.update(i, (p, fee)),
        !(i < n && s[i].0 == p) ==> t =~= s.insert(i, (p, fee)),
        i < n && s[i].0 != p ==> s[i].0 > p,
    ensures
        has_period(t, p),
        fee_of(t, p) == fee,
        forall|q: u64| q != p ==> #[trigger] has_period(t, q) == has_period(s, q),
        forall|q: u64|
            q != p && has_period(s, q) ==> #[trigger] fee_of(t, q) == fee_of(s, q),
{
    assert(t[i].0 == p && t[i].1 == fee);
    assert(has_period(t, p));
    lemma_sorted_unique(t, p, i);
    assert(fee_of(t, p) == fee);
    let replaced = i < n && s[i].0 == p;
    assert forall|q: u64| q != p implies #[trigger] has_period(t, q) == has_period(s, q) by {
        if has_period(s, q) {
            let w = choose|w: int| 0 <= w < s.len() && (#[trigger] s[w]).0 == q;
            if replaced {
                assert(w != i);
                assert(t[w].0 == q);
            } else {
                if w < i {
                    assert(t[w].0 == q);
                } else {
                    assert(t[w + 1].0 == q);
                }
            }
            assert(has_period(t, q));
        }
        if has_period(t, q) {
            let w = choose|w: int| 0 <= w < t.len() && (#[trigger] t[w]).0 == q;
            assert(w != i);
            if replaced {
                assert(s[w].0 == q);
            } else {
                if w < i {
                    assert(s[w].0 == q);
                } else {
                    assert(s[w - 1].0 == q);
                }
            }
            assert(has_period(s, q));
        }
    }
    assert forall|q: u64| q != p && has_period(s, q) implies #[trigger] fee_of(t, q) == fee_of(
        s,
        q,
    ) by {
        let w = choose|w: int| 0 <= w < s.len() && (#[trigger] s[w]).0 == q;
        lemma_sorted_unique(s, q, w);
        if replaced {
            assert(t[w] == s[w]);
            lemma_sorted_unique(t, q, w);
        } else {
            if w < i {
                assert(t[w] == s[w]);
                lemma_sorted_unique(t, q, w);
            } else {
                assert(t[w + 1] == s[w]);
                lemma_sorted_unique(t, q, w + 1);
            }
        }
    }
}

/// After a removal at position `i`, every other period keeps its binding.
proof fn lemma_remove_frames(s: Seq<(u64, Decimal)>, t: Seq<(u64, Decimal)>, i: int, p: u64)
    requires
        periods_sorted(s),
        periods_sorted(t),
        0 <= i < s.len(),
        s[i].0 == p,
        t =~= s.remove(i),
    ensures
        !has_period(t, p),
        forall|q: u64| q != p ==> #[trigger] has_period(t, q) == has_period(s, q),
        forall|q: u64|
            q != p && q != p && has_period(s, q) && q != p ==> #[trigger] fee_of(t, q) == fee_of(
                s,
                q,
            ),
    {
    if has_period(t, p) {
        let w = choose|w: int| 0 <= w < t.len() && (#[trigger] t[w]).0 == p;
        if w < i {
            assert(s[w].0 == p);
            lemma_sorted_unique(s, p, i);
            assert(false);
        } else {
            assert(s[w + 1].0 == p);
            lemma_sorted_unique(s, p, i);
            assert(false);
        }
    }
    assert forall|q: u64| q != p implies #[trigger] has_period(t, q) == has_period(s, q) by {
        if has_period(s, q) {
            let w = choose|w: int| 0 <= w < s.len() && (#[trigger] s[w]).0 == q;
            assert(w != i);
            if w < i {
                assert(t[w].0 == q);
            } else {
                assert(t[w - 1].0 == q);
            }
        }
        if has_period(t, q) {
            let w = choose|w: int| 0 <= w < t.len() && (#[trigger] t[w]).0 == q;
            if w < i {
                assert(s[w].0 == q);
            } else {
                assert(s[w + 1].0 == q);
            }
        }
    }
    assert forall|q: u64| q != p && has_period(s, q) && q != p implies #[trigger] fee_of(t, q)
        == fee_of(s, q) by {
        let w = choose|w: int| 0 <= w < s.len() && (#[trigger] s[w]).0 == q;
        lemma_sorted_unique(s, q, w);
        if w < i {
            assert(t[w] == s[w]);
            lemma_sorted_unique(t, q, w);
        } else {
            assert(w != i);
            assert(t[w - 1] == s[w]);
            lemma_sorted_unique(t, q, w - 1);
        }
    }
}

/// A registered fee is at most one.
pub proof fn lemma_fee_bounded(s: Seq<(u64, Decimal)>, p: u64)
    requires
        fees_bounded(s),
        has_period(s, p),
    ensures
        fee_of(s, p).atomics <= FRACTIONAL,
{
    let w = choose|w: int| 0 <= w < s.len() && (#[trigger] s[w]).0 == p;
    assert(s[w].1.atomics <= FRACTIONAL);
}

/// In a sorted table, the entry found for a period is the only one, so it
/// is the one `fee_of` picks.
proof fn lemma_sorted_unique(s: Seq<(u64, Decimal)>, p: u64, i: int)
    requires
        periods_sorted(s),
        0 <= i < s.len(),
        s[i].0 == p,
    ensures
        has_period(s, p),
        fee_of(s, p) == s[i].1,
{
    assert(has_period(s, p));
    let w = choose|w: int| 0 <= w < s.len() && (#[trigger] s[w]).0 == p;
    if w != i {
        assert(s[w].0 == s[i].0);
        assert(false);
    }
}

} // verus!
