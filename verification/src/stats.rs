//! Size instrumentation: a bounded moving-window statistic over observed
//! byte counts, one instance per direction. The lifetime totals saturate at
//! the machine bound; the exact history is carried as a ghost sequence, so
//! byte accounting can be stated exactly.

use vstd::prelude::*;

verus! {

/// How many recent samples the moving window retains.
pub const WINDOW_CAP: usize = 64;

/// Sum of a recorded history.
pub open spec fn sum_of(s: Seq<int>) -> int
    decreases s.len(),
{
    if s.len() == 0 {
        0
    } else {
        sum_of(s.drop_last()) + s.last()
    }
}

/// Saturation at the 64-bit bound.
pub open spec fn sat64(x: int) -> int {
    if x > u64::MAX {
        u64::MAX as int
    } else {
        x
    }
}

/// A bounded moving-window statistic over observed byte counts.
pub struct SizeStats {
    pub count: u64,
    pub total: u64,
    pub min_sample: u64,
    pub max_sample: u64,
    pub window: Vec<u64>,
    pub recorded: Ghost<Seq<int>>,
}

impl SizeStats {
    /// The statistic agrees with its recorded history: the count and total
    /// saturate, the extremes are true bounds, and the window holds the most
    /// recent samples.
    pub open spec fn wf(&self) -> bool {
        &&& self.count as int == sat64(self.recorded@.len() as int)
        &&& self.total as int == sat64(sum_of(self.recorded@))
        &&& forall|i: int| 0 <= i < self.recorded@.len() ==> 0 <= #[trigger] self.recorded@[i]
            <= u64::MAX
        &&& (self.recorded@.len() == 0 ==> self.min_sample == 0 && self.max_sample == 0)
        &&& forall|i: int|
            0 <= i < self.recorded@.len() ==> self.min_sample <= #[trigger] self.recorded@[i]
                <= self.max_sample
        &&& self.window@.len() == (if self.recorded@.len() < WINDOW_CAP {
            self.recorded@.len() as int
        } else {
            WINDOW_CAP as int
        })
        &&& forall|j: int|
            0 <= j < self.window@.len() ==> #[trigger] self.window@[j] as int == self.recorded@[
                self.recorded@.len() - self.window@.len() + j]
    }

    /// A fresh statistic with no samples.
    pub fn new() -> (r: SizeStats)
        ensures
            r.wf(),
            r.recorded@ == Seq::<int>::empty(),
            r.count == 0,
            r.total == 0,
    {
        SizeStats {
            count: 0,
            total: 0,
            min_sample: 0,
            max_sample: 0,
            window: Vec::new(),
            recorded: Ghost(Seq::empty()),
        }
    }

    /// Record one observed byte count.
    pub fn sample(&mut self, v: u64)
        requires
            old(self).wf(),
        ensures
            final(self).wf(),
            final(self).recorded@ == old(self).recorded@.push(v as int),
            final(self).total as int == sat64(sum_of(old(self).recorded@) + v),
            final(self).count as int == sat64(old(self).recorded@.len() as int + 1),
    {
        let ghost r0 = self.recorded@;
        proof {
            assert(r0.push(v as int).drop_last() =~= r0);
            assert(r0.push(v as int).last() == v as int);
            if sum_of(r0) >= 0 {
            } else {
                lemma_sum_nonneg(r0);
            }
        }
        if self.count < u64::MAX {
            self.count = self.count + 1;
        }
        if self.total <= u64::MAX - v {
            self.total = self.total + v;
        } else {
            self.total = u64::MAX;
        }
        if self.count == 1 {
            self.min_sample = v;
            self.max_sample = v;
        } else {
            if v < self.min_sample {
                self.min_sample = v;
            }
            if v > self.max_sample {
                self.max_sample = v;
            }
        }
        let ghost w0 = self.window@;
        if self.window.len() == WINDOW_CAP {
            self.window.remove(0);
        }
        self.window.push(v);
        proof {
            self.recorded@ = r0.push(v as int);
            let r1 = self.recorded@;
            let w1 = self.window@;
            assert forall|j: int| 0 <= j < w1.len() implies #[trigger] w1[j] as int == r1[r1.len()
                - w1.len() + j] by {
                if j < w1.len() - 1 {
                    if w0.len() == WINDOW_CAP {
                        assert(w1[j] == w0[j + 1]);
                    } else {
                        assert(w1[j] == w0[j]);
                    }
                    assert(r1[r1.len() - w1.len() + j] == r0[r0.len() - w0.len() + (
                    if w0.len() == WINDOW_CAP {
                        j + 1
                    } else {
                        j
                    })]);
                } else {
                    assert(w1[j] == v);
                    assert(r1[r1.len() - 1] == v as int);
                }
            }
        }
    }

    /// The number of samples recorded, saturating.
    pub fn sample_count(&self) -> (r: u64)
        ensures
            r == self.count,
    {
        self.count
    }

    /// The mean of the recorded byte counts, in saturated arithmetic.
    pub fn mean(&self) -> (r: u64)
        ensures
            self.count == 0 ==> r == 0,
            self.count != 0 ==> r == self.total / self.count,
    {
        if self.count == 0 {
            0
        } else {
            self.total / self.count
        }
    }

    /// A dispersion estimate: the spread between the largest and smallest
    /// recorded byte count.
    pub fn spread(&self) -> (r: u64)
        requires
            self.wf(),
        ensures
            r == self.max_sample - self.min_sample,
    {
        proof {
            if self.recorded@.len() > 0 {
                assert(self.min_sample <= self.recorded@[0] <= self.max_sample);
            }
        }
        self.max_sample - self.min_sample
    }
}

pub proof fn lemma_sum_nonneg(s: Seq<int>)
    requires
        forall|i: int| 0 <= i < s.len() ==> 0 <= #[trigger] s[i],
    ensures
        sum_of(s) >= 0,
    decreases s.len(),
{
    if s.len() > 0 {
        assert(forall|i: int| 0 <= i < s.drop_last().len() ==> 0 <= #[trigger] s.drop_last()[i]);
        lemma_sum_nonneg(s.drop_last());
    }
}

/// Byte accounting over a run of samples: recording a run of byte counts
/// adds exactly their sum to the recorded history's sum.
pub proof fn lemma_sum_concat(a: Seq<int>, b: Seq<int>)
    ensures
        sum_of(a + b) == sum_of(a) + sum_of(b),
    decreases b.len(),
{
    if b.len() == 0 {
        assert(a + b =~= a);
    } else {
        assert((a + b).drop_last() =~= a + b.drop_last());
        assert((a + b).last() == b.last());
        lemma_sum_concat(a, b.drop_last());
    }
}

} // verus!
