//! The running score histogram: fixed-width buckets over the thousandths
//! scale on which combined scores are reported, with exact percentile
//! cutoffs.

use vstd::prelude::*;

verus! {

/// Sum of all bucket counts.
pub open spec fn sum_counts(s: Seq<u64>) -> int
    decreases s.len(),
{
    if s.len() == 0 {
        0
    } else {
        sum_counts(s.drop_last()) + s.last()
    }
}

/// Any prefix sum of counts lies between zero and the full sum.
pub proof fn lemma_sum_counts_take(s: Seq<u64>, i: int)
    requires
        0 <= i <= s.len(),
    ensures
        0 <= sum_counts(s.take(i)) <= sum_counts(s),
    decreases s.len(),
{
    if s.len() == 0 {
        assert(s.take(i) =~= s);
    } else {
        if i == s.len() {
            assert(s.take(i) =~= s);
            lemma_sum_counts_take(s.drop_last(), s.len() - 1);
            assert(s.drop_last().take(s.len() - 1) =~= s.drop_last());
        } else {
            lemma_sum_counts_take(s.drop_last(), i);
            assert(s.drop_last().take(i) =~= s.take(i));
        }
    }
}

/// How many observations fell into buckets `0..=v`.
pub open spec fn cum(s: Seq<u64>, v: int) -> int {
    sum_counts(s.take(v + 1))
}

/// A histogram of observed combined scores: 1001 fixed-width buckets, one
/// for each value on the thousandths scale.
pub struct ScoreHistogram {
    counts: Vec<u64>,
    total: u64,
}

impl ScoreHistogram {
    pub closed spec fn counts(self) -> Seq<u64> {
        self.counts@
    }

    pub closed spec fn total(self) -> u64 {
        self.total
    }

    /// The bucket list spans the whole scale and the total tallies it.
    pub open spec fn wf(self) -> bool {
        &&& self.counts().len() == 1001
        &&& self.total() == sum_counts(self.counts())
    }

    pub fn new() -> (r: ScoreHistogram)
        ensures
            r.wf(),
            r.total() == 0,
            forall|v: int| 0 <= v < 1001 ==> r.counts()[v] == 0,
    {
        let mut counts: Vec<u64> = Vec::new();
        let mut i: usize = 0;
        while i < 1001
            invariant
                0 <= i <= 1001,
                counts@.len() == i,
                forall|v: int| 0 <= v < i ==> counts@[v] == 0,
                sum_counts(counts@) == 0,
            decreases 1001 - i,
        {
            let ghost before = counts@;
            counts.push(0);
            proof {
                assert(counts@.drop_last() =~= before);
            }
            i += 1;
        }
        ScoreHistogram { counts, total: 0 }
    }

    /// Registers one observed score.
    pub fn increment(&mut self, v: u64)
        requires
            old(self).wf(),
            v <= 1000,
            old(self).total() < 18446744073709551615,
        ensures
            final(self).wf(),
            final(self).total() == old(self).total() + 1,
            final(self).counts() == old(self).counts().update(
                v as int,
                (old(self).counts()[v as int] + 1) as u64,
            ),
    {
        proof {
            lemma_sum_update(self.counts@, v as int);
        }
        let c = self.counts[v as usize];
        proof {
            lemma_count_le_sum(self.counts@, v as int);
        }
        self.counts[v as usize] = c + 1;
        self.total = self.total + 1;
    }

    /// The lowest bucket `r` such that at least `p` thousandths of all
    /// observations lie in buckets `0..=r`.
    pub fn percentile(&self, p: u64) -> (r: u64)
        requires
            self.wf(),
            p <= 1000,
            self.total() > 0,
        ensures
            r <= 1000,
            cum(self.counts(), r as int) * 1000 >= p * self.total(),
            forall|w: int| 0 <= w < r ==> cum(self.counts(), w) * 1000 < p * self.total(),
    {
        let ghost s = self.counts@;
        let mut acc: u64 = 0;
        let mut v: usize = 0;
        while v < 1001
            invariant
                self.wf(),
                s == self.counts@,
                p <= 1000,
                self.total() > 0,
                0 <= v <= 1001,
                acc == sum_counts(s.take(v as int)),
                0 <= acc <= self.total(),
                forall|w: int| 0 <= w < v ==> cum(s, w) * 1000 < p * self.total(),
            decreases 1001 - v,
        {
            proof {
                lemma_sum_counts_take(s, v + 1);
                assert(s.take(v + 1).drop_last() =~= s.take(v as int));
                assert(s.take(v + 1).last() == s[v as int]);
            }
            let acc2 = acc + self.counts[v];
            proof {
                assert((p as int) * (self.total() as int) <= 1000 * 18446744073709551615)
                    by (nonlinear_arith)
                    requires
                        p <= 1000,
                        self.total() <= 18446744073709551615,
                ;
            }
            if (acc2 as u128) * 1000 >= (p as u128) * (self.total as u128) {
                return v as u64;
            }
            proof {
                if v == 1000 {
                    assert(s.take(1001int) =~= s);
                    assert(acc2 == self.total());
                    assert(self.total() * 1000 >= p * self.total()) by (nonlinear_arith)
                        requires
                            p <= 1000,
                            self.total() >= 0,
                    ;
                    assert(false);
                }
            }
            acc = acc2;
            v += 1;
        }
        proof {
            assert(cum(s, 1000) * 1000 < p * self.total());
            assert(s.take(1001int) =~= s);
            assert(p * self.total() <= 1000 * self.total()) by (nonlinear_arith)
                requires
                    p <= 1000,
                    self.total() >= 0,
            ;
            assert(false);
        }
        0
    }
}

/// Raising one bucket raises the sum by the same amount.
proof fn lemma_sum_update(s: Seq<u64>, i: int)
    requires
        0 <= i < s.len(),
    ensures
        forall|x: u64|
            sum_counts(#[trigger] s.update(i, x)) == sum_counts(s) - s[i] + x,
    decreases s.len(),
{
    assert forall|x: u64|
        sum_counts(#[trigger] s.update(i, x)) == sum_counts(s) - s[i] + x by {
        lemma_sum_update_one(s, i, x);
    }
}

proof fn lemma_sum_update_one(s: Seq<u64>, i: int, x: u64)
    requires
        0 <= i < s.len(),
    ensures
        sum_counts(s.update(i, x)) == sum_counts(s) - s[i] + x,
    decreases s.len(),
{
    let t = s.update(i, x);
    if i == s.len() - 1 {
        assert(t.drop_last() =~= s.drop_last());
        assert(t.last() == x);
        assert(s.last() == s[i]);
    } else {
        assert(t.drop_last() =~= s.drop_last().update(i, x));
        assert(t.last() == s.last());
        assert(s.drop_last()[i] == s[i]);
        lemma_sum_update_one(s.drop_last(), i, x);
    }
}

/// Every bucket is bounded by the sum.
proof fn lemma_count_le_sum(s: Seq<u64>, i: int)
    requires
        0 <= i < s.len(),
    ensures
        s[i] <= sum_counts(s),
    decreases s.len(),
{
    if i == s.len() - 1 {
        assert(s.last() == s[i]);
        lemma_sum_nonneg(s.drop_last());
    } else {
        assert(s.drop_last()[i] == s[i]);
        lemma_count_le_sum(s.drop_last(), i);
    }
}

proof fn lemma_sum_nonneg(s: Seq<u64>)
    ensures
        sum_counts(s) >= 0,
    decreases s.len(),
{
    if s.len() > 0 {
        lemma_sum_nonneg(s.drop_last());
    }
}

} // verus!
