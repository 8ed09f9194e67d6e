//! Height-indexed history of one tracked quantity.
//!
//! A `History` records, for a single subject (one staker balance or one pool
//! total), the value the subject had at the end of each block height at which
//! it changed.  A query for height `h` answers with the value that was in
//! effect at the start of `h`: a change made at height `h` itself becomes
//! visible only from height `h + 1` on, which closes the same-block
//! manipulation window for callers that read balances as a voting-power
//! signal.

use vstd::prelude::*;

verus! {

/// The value of the tracked quantity at the end of block `height`.
#[derive(Clone, Copy, Debug, PartialEq, Eq, Structural)]
pub struct Checkpoint {
    pub height: u64,
    pub value: u128,
}

/// Checkpoint heights are strictly increasing.
pub open spec fn heights_increasing(s: Seq<Checkpoint>) -> bool {
    forall|i: int, j: int| 0 <= i < j < s.len() ==> s[i].height < s[j].height
}

/// The value in effect at the start of height `h`: the value of the last
/// checkpoint strictly below `h`, or `None` when no change happened before
/// `h`.
pub open spec fn spec_value_at(s: Seq<Checkpoint>, h: u64) -> Option<u128>
    decreases s.len(),
{
    if s.len() == 0 {
        None
    } else if s.last().height < h {
        Some(s.last().value)
    } else {
        spec_value_at(s.drop_last(), h)
    }
}

/// The live value: the value of the newest checkpoint.
pub open spec fn spec_current(s: Seq<Checkpoint>) -> Option<u128> {
    if s.len() == 0 {
        None
    } else {
        Some(s.last().value)
    }
}

/// The live value, defaulted to zero for a subject that never changed.
pub open spec fn current0(s: Seq<Checkpoint>) -> int {
    match spec_current(s) {
        Some(v) => v as int,
        None => 0,
    }
}

/// The history after recording value `v` at height `h`: a height at or
/// below the newest checkpoint's height updates that checkpoint in place
/// (so repeated changes within one height keep a single checkpoint), a
/// greater height appends a new checkpoint.
pub open spec fn spec_record(s: Seq<Checkpoint>, h: u64, v: u128) -> Seq<Checkpoint> {
    if s.len() > 0 && h <= s.last().height {
        s.update(s.len() - 1, Checkpoint { height: s.last().height, value: v })
    } else {
        s.push(Checkpoint { height: h, value: v })
    }
}

/// A height-indexed history of one tracked quantity.
#[derive(Clone, Debug)]
pub struct History {
    pub checkpoints: Vec<Checkpoint>,
}

impl View for History {
    type V = Seq<Checkpoint>;

    open spec fn view(&self) -> Seq<Checkpoint> {
        self.checkpoints@
    }
}

impl History {
    /// Whether the history is well formed: strictly increasing heights.
    pub open spec fn wf(&self) -> bool {
        heights_increasing(self@)
    }

    /// An empty history: no checkpoint, no live value.
    pub fn new() -> (r: Self)
        ensures
            r@ =~= Seq::<Checkpoint>::empty(),
            r.wf(),
    {
        History { checkpoints: Vec::new() }
    }

    /// The live value, if the subject ever changed.
    pub fn current(&self) -> (r: Option<u128>)
        ensures
            r == spec_current(self@),
    {
        let n = self.checkpoints.len();
        if n == 0 {
            None
        } else {
            Some(self.checkpoints[n - 1].value)
        }
    }

    /// Record value `v` at height `h`.
    pub fn record(&mut self, h: u64, v: u128)
        requires
            old(self).wf(),
        ensures
            final(self)@ =~= spec_record(old(self)@, h, v),
            final(self).wf(),
    {
        let n = self.checkpoints.len();
        if n > 0 && h <= self.checkpoints[n - 1].height {
            let keep = self.checkpoints[n - 1].height;
            self.checkpoints[n - 1] = Checkpoint { height: keep, value: v };
        } else {
            self.checkpoints.push(Checkpoint { height: h, value: v });
        }
    }

    /// The value in effect at the start of height `h`.
    pub fn value_at(&self, h: u64) -> (r: Option<u128>)
        ensures
            r == spec_value_at(self@, h),
    {
        let mut i = self.checkpoints.len();
        proof {
            assert(self@.take(i as int) =~= self@);
        }
        while i > 0
            invariant
                i <= self.checkpoints.len(),
                spec_value_at(self@, h) == spec_value_at(self@.take(i as int), h),
            decreases i,
        {
            let cp = self.checkpoints[i - 1];
            proof {
                assert(self@.take(i as int).last() == cp);
                assert(self@.take(i as int).drop_last() =~= self@.take(i as int - 1));
            }
            if cp.height < h {
                return Some(cp.value);
            }
            i = i - 1;
        }
        proof {
            assert(self@.take(0).len() == 0);
        }
        None
    }
}

/// Recording a change at height `h` does not alter what any query at or
/// below `h` sees, provided `h` is at or beyond every checkpoint so far
/// (heights never decrease across calls); the new value becomes visible
/// exactly from height `h + 1` on.
pub proof fn lemma_snapshot_non_leakage(s: Seq<Checkpoint>, h: u64, v: u128, hq: u64)
    requires
        heights_increasing(s),
        forall|i: int| 0 <= i < s.len() ==> #[trigger] s[i].height <= h,
    ensures
        hq <= h ==> spec_value_at(spec_record(s, h, v), hq) == spec_value_at(s, hq),
        hq > h ==> spec_value_at(spec_record(s, h, v), hq) == Some(v),
{
    let t = spec_record(s, h, v);
    if s.len() > 0 && h <= s.last().height {
        // h equals the newest checkpoint's height: that checkpoint is
        // replaced, which no query at or below h can see
        assert(s.last().height == h);
        assert(t.last().height == h);
        assert(t.drop_last() =~= s.drop_last());
        if hq <= h {
            assert(spec_value_at(t, hq) == spec_value_at(t.drop_last(), hq));
            assert(spec_value_at(s, hq) == spec_value_at(s.drop_last(), hq));
        }
    } else {
        assert(t.last() == Checkpoint { height: h, value: v });
        assert(t.drop_last() =~= s);
        if hq <= h {
            assert(spec_value_at(t, hq) == spec_value_at(s, hq));
        }
    }
}

/// Recording keeps the heights strictly increasing, whatever the height:
/// a height not beyond the newest checkpoint folds into it in place.
pub proof fn lemma_record_wf_any(s: Seq<Checkpoint>, h: u64, v: u128)
    requires
        heights_increasing(s),
    ensures
        heights_increasing(spec_record(s, h, v)),
        spec_current(spec_record(s, h, v)) == Some(v),
{
    let t = spec_record(s, h, v);
    if s.len() > 0 && h <= s.last().height {
        assert forall|i: int, j: int| 0 <= i < j < t.len() implies t[i].height < t[j].height by {
            assert(s[i].height < s[j].height);
        }
    } else {
        assert forall|i: int, j: int| 0 <= i < j < t.len() implies t[i].height < t[j].height by {
            if j == t.len() - 1 {
                if i < s.len() - 1 {
                    assert(s[i].height < s.last().height);
                }
            }
        }
    }
}

/// Recording at a height at or beyond every existing checkpoint keeps the
/// heights strictly increasing, and the live value becomes the recorded
/// one.
pub proof fn lemma_record_wf(s: Seq<Checkpoint>, h: u64, v: u128)
    requires
        heights_increasing(s),
        forall|i: int| 0 <= i < s.len() ==> #[trigger] s[i].height <= h,
    ensures
        heights_increasing(spec_record(s, h, v)),
        forall|i: int|
            0 <= i < spec_record(s, h, v).len() ==> #[trigger] spec_record(s, h, v)[i].height
                <= h,
        spec_current(spec_record(s, h, v)) == Some(v),
{
    let t = spec_record(s, h, v);
    if s.len() > 0 && h <= s.last().height {
        assert(s.last().height == h);
        assert forall|i: int, j: int| 0 <= i < j < t.len() implies t[i].height < t[j].height by {
            assert(s[i].height < s[j].height);
        }
    }
}

} // verus!
