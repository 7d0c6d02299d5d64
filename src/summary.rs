//! Summary statistics of a batch of delta records, for progress reports.
use vstd::prelude::*;

verus! {

/// Absolute value.
pub open spec fn abs(x: int) -> int {
    if x < 0 {
        -x
    } else {
        x
    }
}

/// Sum of the absolute deltas of `s`.
pub open spec fn abs_total<K>(s: Seq<(K, i64)>) -> int
    decreases s.len(),
{
    if s.len() == 0 {
        0
    } else {
        abs_total(s.drop_last()) + abs(s.last().1 as int)
    }
}

/// Largest absolute delta of `s`; zero when it is empty.
pub open spec fn max_abs<K>(s: Seq<(K, i64)>) -> int
    decreases s.len(),
{
    if s.len() == 0 {
        0
    } else {
        let m = max_abs(s.drop_last());
        let a = abs(s.last().1 as int);
        if m < a {
            a
        } else {
            m
        }
    }
}

/// Count of records, sum of absolute deltas and largest absolute delta.
#[derive(Clone, Copy, Debug, PartialEq, Eq, Structural)]
pub struct BatchSummary {
    pub count: usize,
    pub abs_sum: u128,
    pub max_abs: u64,
}

/// Summarizes a batch of records. It has no effect on any state.
pub fn summarize<K>(records: &Vec<(K, i64)>) -> (r: BatchSummary)
    ensures
        r.count == records.len(),
        r.abs_sum == abs_total(records@),
        r.max_abs == max_abs(records@),
{
    let mut cnt: usize = 0;
    let mut sum: u128 = 0;
    let mut max: u64 = 0;
    while cnt < records.len()
        invariant
            0 <= cnt <= records.len(),
            sum == abs_total(records@.take(cnt as int)),
            max == max_abs(records@.take(cnt as int)),
            sum <= (cnt as int) * 0x8000_0000_0000_0000,
        decreases records.len() - cnt,
    {
        let d = records[cnt].1;
        let a: u64 = if d < 0 {
            (-(d as i128)) as u64
        } else {
            d as u64
        };
        assert(records@.take(cnt + 1).drop_last() =~= records@.take(cnt as int));
        sum = sum + a as u128;
        max = if max < a {
            a
        } else {
            max
        };
        cnt += 1;
    }
    assert(records@.take(cnt as int) =~= records@);
    BatchSummary { count: cnt, abs_sum: sum, max_abs: max }
}

} // verus!
