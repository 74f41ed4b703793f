use vstd::prelude::*;

use crate::parse::MAX_TENTHS;

verus! {

/// What is known of one key: lowest and highest reading, their sum and how
/// many there were, all in tenths.
pub struct Summary {
    pub min: int,
    pub max: int,
    pub sum: int,
    pub count: int,
}

pub open spec fn min_of(a: int, b: int) -> int {
    if a <= b { a } else { b }
}

pub open spec fn max_of(a: int, b: int) -> int {
    if a >= b { a } else { b }
}

/// The summary of a single reading.
pub open spec fn single(v: int) -> Summary {
    Summary { min: v, max: v, sum: v, count: 1 }
}

/// The merge operator on two summaries of the same key.
pub open spec fn merge_summary(a: Summary, b: Summary) -> Summary {
    Summary {
        min: min_of(a.min, b.min),
        max: max_of(a.max, b.max),
        sum: a.sum + b.sum,
        count: a.count + b.count,
    }
}

/// A summary of at least one reading within the accepted range.
pub open spec fn summary_wf(s: Summary) -> bool {
    &&& s.count >= 1
    &&& -MAX_TENTHS <= s.min <= s.max <= MAX_TENTHS
    &&& s.min * s.count <= s.sum <= s.max * s.count
}

/// Running statistics of one key.
#[derive(Clone, Copy, Debug)]
pub struct StationData {
    pub min_temp: i64,
    pub max_temp: i64,
    pub total_temp: i128,
    pub count: u64,
}

impl StationData {
    pub open spec fn view(&self) -> Summary {
        Summary {
            min: self.min_temp as int,
            max: self.max_temp as int,
            sum: self.total_temp as int,
            count: self.count as int,
        }
    }

    /// Either the empty start value or a well-formed summary.
    pub open spec fn wf(&self) -> bool {
        ||| (self.count == 0 && self.min_temp == i64::MAX && self.max_temp == i64::MIN
            && self.total_temp == 0)
        ||| summary_wf(self.view())
    }

    /// The start value: no readings yet.
    pub fn new() -> (r: StationData)
        ensures
            r.wf(),
            r.count == 0,
            r.min_temp == i64::MAX,
            r.max_temp == i64::MIN,
            r.total_temp == 0,
    {
        StationData { min_temp: i64::MAX, max_temp: i64::MIN, total_temp: 0, count: 0 }
    }

    /// Folds one reading in.
    pub fn update(&mut self, temp: i64)
        requires
            old(self).wf(),
            -MAX_TENTHS <= temp <= MAX_TENTHS,
            old(self).count < u64::MAX,
        ensures
            final(self).wf(),
            old(self).count == 0 ==> final(self).view() == single(temp as int),
            old(self).count > 0 ==> final(self).view() == merge_summary(
                old(self).view(),
                single(temp as int),
            ),
    {
        proof {
            if self.count > 0 {
                lemma_sum_bound(self.view());
            }
        }
        if temp < self.min_temp {
            self.min_temp = temp;
        }
        if temp > self.max_temp {
            self.max_temp = temp;
        }
        self.total_temp = self.total_temp + temp as i128;
        self.count = self.count + 1;
        proof {
            let n = self.view();
            let o = old(self).view();
            if o.count > 0 {
                assert(o.min * o.count + temp <= o.sum + temp);
                assert(n.min * n.count <= n.sum) by (nonlinear_arith)
                    requires n.min <= o.min, n.min <= temp, n.count == o.count + 1,
                        o.min * o.count <= o.sum, n.sum == o.sum + temp, o.count >= 0;
                assert(n.sum <= n.max * n.count) by (nonlinear_arith)
                    requires n.max >= o.max, n.max >= temp, n.count == o.count + 1,
                        o.sum <= o.max * o.count, n.sum == o.sum + temp, o.count >= 0;
            }
        }
    }

    /// Merges the statistics of `other`, gathered for the same key, into `self`.
    pub fn aggregate(&mut self, other: &StationData)
        requires
            summary_wf(old(self).view()),
            summary_wf(other.view()),
            old(self).count + other.count <= u64::MAX,
        ensures
            summary_wf(final(self).view()),
            final(self).view() == merge_summary(old(self).view(), other.view()),
    {
        proof {
            lemma_sum_bound(self.view());
            lemma_sum_bound(other.view());
        }
        if other.min_temp < self.min_temp {
            self.min_temp = other.min_temp;
        }
        if other.max_temp > self.max_temp {
            self.max_temp = other.max_temp;
        }
        self.total_temp = self.total_temp + other.total_temp;
        self.count = self.count + other.count;
        proof {
            lemma_merge_wf(old(self).view(), other.view());
        }
    }
}

/// The sum of a well-formed summary is small enough for an `i128` twice over.
pub proof fn lemma_sum_bound(s: Summary)
    requires
        summary_wf(s),
        s.count <= u64::MAX,
    ensures
        -MAX_TENTHS * 0x1_0000_0000_0000_0000 <= s.sum <= MAX_TENTHS * 0x1_0000_0000_0000_0000,
{
    assert(-MAX_TENTHS * s.count <= s.min * s.count) by (nonlinear_arith)
        requires -MAX_TENTHS <= s.min, s.count >= 0;
    assert(s.max * s.count <= MAX_TENTHS * s.count) by (nonlinear_arith)
        requires s.max <= MAX_TENTHS, s.count >= 0;
    assert(MAX_TENTHS * s.count <= MAX_TENTHS * 0x1_0000_0000_0000_0000) by (nonlinear_arith)
        requires s.count <= 0x1_0000_0000_0000_0000;
}

/// Merging keeps a summary well formed.
pub proof fn lemma_merge_wf(a: Summary, b: Summary)
    requires
        summary_wf(a),
        summary_wf(b),
    ensures
        summary_wf(merge_summary(a, b)),
{
    let m = merge_summary(a, b);
    assert(m.min * a.count <= a.min * a.count) by (nonlinear_arith)
        requires m.min <= a.min, a.count >= 0;
    assert(m.min * b.count <= b.min * b.count) by (nonlinear_arith)
        requires m.min <= b.min, b.count >= 0;
    assert(a.max * a.count <= m.max * a.count) by (nonlinear_arith)
        requires m.max >= a.max, a.count >= 0;
    assert(b.max * b.count <= m.max * b.count) by (nonlinear_arith)
        requires m.max >= b.max, b.count >= 0;
    assert(m.min * m.count == m.min * a.count + m.min * b.count) by (nonlinear_arith)
        requires m.count == a.count + b.count;
    assert(m.max * m.count == m.max * a.count + m.max * b.count) by (nonlinear_arith)
        requires m.count == a.count + b.count;
}

} // verus!
