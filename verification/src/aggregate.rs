use vstd::prelude::*;

use vstd::arithmetic::div_mod::{lemma_div_is_ordered, lemma_div_of0, lemma_div_pos_is_pos};

use crate::storage::{
    lemma_range_filter_props, range_filter, sorted_by_time, Sample, Storage, StorageError,
    TEMP_MAX_MILLI, TEMP_MIN_MILLI,
};

verus! {

/// Hard ceiling on the number of buckets one aggregation pass may emit;
/// a pass that would exceed it fails with an internal-consistency error
/// instead of producing an absurdly long series.
pub const MAX_BUCKETS: usize = 100_000;

/// Staleness threshold: how many consecutive empty buckets may still carry
/// the last resolved average forward before the series reports no data.
pub const STALE_LIMIT: u64 = 5;

/// Exact average of one bucket: the sum of its member temperatures, in
/// thousandths of a degree, and their count. A bucket with a single member
/// represents that member's temperature exactly, with no rounding.
#[derive(Clone, Copy, Debug, PartialEq, Eq, Structural)]
pub struct BucketStat {
    pub sum_milli: i128,
    pub count: usize,
}

/// Index of the bucket a timestamp falls in, counting fixed-width buckets
/// from the timestamp `t0` of the first in-range sample.
pub open spec fn bucket_index(t0: int, w: int, ts: int) -> int {
    (ts - t0) / w
}

/// Number of buckets one pass over the non-empty, time-ordered sample
/// sequence `s` emits: every bucket from the first sample's up to and
/// including the last sample's.
pub open spec fn bucket_total(s: Seq<Sample>, w: int) -> int {
    bucket_index(s[0].timestamp as int, w, s.last().timestamp as int) + 1
}

/// Sum of the temperatures of the members of bucket `k`.
pub open spec fn bucket_sum(s: Seq<Sample>, t0: int, w: int, k: int) -> int
    decreases s.len(),
{
    if s.len() == 0 {
        0
    } else {
        bucket_sum(s.drop_last(), t0, w, k) + if bucket_index(
            t0,
            w,
            s.last().timestamp as int,
        ) == k {
            s.last().temperature as int
        } else {
            0
        }
    }
}

/// Number of members of bucket `k`.
pub open spec fn bucket_count(s: Seq<Sample>, t0: int, w: int, k: int) -> int
    decreases s.len(),
{
    if s.len() == 0 {
        0
    } else {
        bucket_count(s.drop_last(), t0, w, k) + if bucket_index(
            t0,
            w,
            s.last().timestamp as int,
        ) == k {
            1int
        } else {
            0
        }
    }
}

/// Length of the run of consecutive empty buckets ending at bucket `k`.
pub open spec fn empty_run(s: Seq<Sample>, t0: int, w: int, k: int) -> int
    decreases (if k >= 0 {
        k
    } else {
        0
    }),
{
    if bucket_count(s, t0, w, k) > 0 {
        0
    } else if k <= 0 {
        1
    } else {
        empty_run(s, t0, w, k - 1) + 1
    }
}

/// The value the pass resolves for bucket `k`: the exact average of its
/// members when it has any; otherwise the previous resolved value carried
/// forward — unless more than [`STALE_LIMIT`] consecutive buckets are empty,
/// in which case the bucket reports no data until real samples appear again.
pub open spec fn resolved(s: Seq<Sample>, t0: int, w: int, k: int) -> Option<(int, int)>
    decreases (if k >= 0 {
        k
    } else {
        0
    }),
{
    if bucket_count(s, t0, w, k) > 0 {
        Some((bucket_sum(s, t0, w, k), bucket_count(s, t0, w, k)))
    } else if empty_run(s, t0, w, k) > STALE_LIMIT {
        None
    } else if k <= 0 {
        None
    } else {
        resolved(s, t0, w, k - 1)
    }
}

/// An emitted bucket, read back as the model's exact pair.
pub open spec fn stat_view(o: Option<BucketStat>) -> Option<(int, int)> {
    match o {
        Some(b) => Some((b.sum_milli as int, b.count as int)),
        None => None,
    }
}

/// Bucket indices never decrease along a time-ordered sample sequence.
proof fn lemma_bucket_index_monotone(t0: int, w: int, a: int, b: int)
    requires
        w >= 1,
        a <= b,
    ensures
        bucket_index(t0, w, a) <= bucket_index(t0, w, b),
{
    lemma_div_is_ordered(a - t0, b - t0, w);
}

/// A timestamp at or past `t0` falls in a bucket with non-negative index.
proof fn lemma_bucket_index_nonneg(t0: int, w: int, ts: int)
    requires
        w >= 1,
        t0 <= ts,
    ensures
        bucket_index(t0, w, ts) >= 0,
{
    lemma_div_pos_is_pos(ts - t0, w);
}

/// Extending the summed prefix by one sample adds exactly that sample's
/// contribution to its own bucket.
proof fn lemma_bucket_take_step(s: Seq<Sample>, t0: int, w: int, k: int, i: int)
    requires
        0 <= i < s.len(),
    ensures
        bucket_sum(s.take(i + 1), t0, w, k) == bucket_sum(s.take(i), t0, w, k) + if bucket_index(
            t0,
            w,
            s[i].timestamp as int,
        ) == k {
            s[i].temperature as int
        } else {
            0
        },
        bucket_count(s.take(i + 1), t0, w, k) == bucket_count(s.take(i), t0, w, k) + if bucket_index(
            t0,
            w,
            s[i].timestamp as int,
        ) == k {
            1int
        } else {
            0
        },
{
    assert(s.take(i + 1).drop_last() =~= s.take(i));
    assert(s.take(i + 1).last() == s[i]);
}

/// Samples beyond the scanned prefix contribute nothing to a bucket none of
/// them falls in.
proof fn lemma_bucket_tail_irrelevant(s: Seq<Sample>, t0: int, w: int, k: int, i: int)
    requires
        0 <= i <= s.len(),
        forall|j: int| i <= j < s.len() ==> bucket_index(t0, w, (#[trigger] s[j]).timestamp as int)
            != k,
    ensures
        bucket_sum(s, t0, w, k) == bucket_sum(s.take(i), t0, w, k),
        bucket_count(s, t0, w, k) == bucket_count(s.take(i), t0, w, k),
    decreases s.len() - i,
{
    if i == s.len() {
        assert(s.take(i) =~= s);
    } else {
        lemma_bucket_tail_irrelevant(s.drop_last(), t0, w, k, i);
        assert(s.drop_last().take(i) =~= s.take(i));
    }
}

/// The members of bucket `k` bound its sum: each contributes a temperature
/// within the valid range.
proof fn lemma_bucket_sum_bounds(s: Seq<Sample>, t0: int, w: int, k: int)
    requires
        forall|i: int| 0 <= i < s.len() ==> (#[trigger] s[i]).valid(),
    ensures
        0 <= bucket_count(s, t0, w, k) <= s.len(),
        bucket_count(s, t0, w, k) * TEMP_MIN_MILLI <= bucket_sum(s, t0, w, k) <= bucket_count(
            s,
            t0,
            w,
            k,
        ) * TEMP_MAX_MILLI,
    decreases s.len(),
{
    if s.len() > 0 {
        lemma_bucket_sum_bounds(s.drop_last(), t0, w, k);
        let c0 = bucket_count(s.drop_last(), t0, w, k);
        let c = bucket_count(s, t0, w, k);
        assert(c0 * TEMP_MIN_MILLI + TEMP_MIN_MILLI == (c0 + 1) * TEMP_MIN_MILLI) by (nonlinear_arith);
        assert(c0 * TEMP_MAX_MILLI + TEMP_MAX_MILLI == (c0 + 1) * TEMP_MAX_MILLI) by (nonlinear_arith);
    }
}

/// LAW (single-sample exactness): aggregating a lone sample at time `T` with
/// bucket width `W` — so over `[T, T + W)` — yields exactly one bucket, whose
/// value is that sample's temperature exactly: the sum is the temperature and
/// the count is one, leaving no room for averaging error.
pub proof fn lemma_single_sample_exact(s: Sample, w: int)
    requires
        w >= 1,
    ensures
        bucket_total(seq![s], w) == 1,
        resolved(seq![s], s.timestamp as int, w, 0) == Some((s.temperature as int, 1int)),
{
    let sq = seq![s];
    let t0 = s.timestamp as int;
    lemma_div_of0(w);
    assert(bucket_index(t0, w, s.timestamp as int) == 0);
    assert(sq.drop_last() =~= Seq::<Sample>::empty());
    assert(bucket_sum(sq, t0, w, 0) == s.temperature as int) by {
        reveal_with_fuel(bucket_sum, 2);
    }
    assert(bucket_count(sq, t0, w, 0) == 1) by {
        reveal_with_fuel(bucket_count, 2);
    }
}

/// A run of empty buckets is never counted as negative.
proof fn lemma_empty_run_nonneg(s: Seq<Sample>, t0: int, w: int, k: int)
    ensures
        empty_run(s, t0, w, k) >= 0,
    decreases (if k >= 0 {
        k
    } else {
        0
    }),
{
    if bucket_count(s, t0, w, k) <= 0 && k > 0 {
        lemma_empty_run_nonneg(s, t0, w, k - 1);
    }
}

/// LAW (staleness suppression): once strictly more than [`STALE_LIMIT`]
/// consecutive buckets are empty, the bucket at the end of that run resolves
/// to no data — the stale forward-filled average is suppressed, not carried.
pub proof fn lemma_staleness_suppresses(s: Seq<Sample>, t0: int, w: int, k: int)
    requires
        STALE_LIMIT <= k,
        forall|j: int| k - STALE_LIMIT <= j <= k ==> bucket_count(s, t0, w, j) == 0,
    ensures
        resolved(s, t0, w, k) == None::<(int, int)>,
{
    lemma_empty_run_nonneg(s, t0, w, k - 6);
    assert(empty_run(s, t0, w, k - 5) >= 1);
    assert(empty_run(s, t0, w, k - 4) >= 2);
    assert(empty_run(s, t0, w, k - 3) >= 3);
    assert(empty_run(s, t0, w, k - 2) >= 4);
    assert(empty_run(s, t0, w, k - 1) >= 5);
    assert(empty_run(s, t0, w, k) >= 6);
}

/// One linear pass over a non-empty, time-ordered, valid sample sequence:
/// walks the ordered samples against monotonically advancing bucket
/// boundaries and resolves every bucket per the forward-fill/staleness
/// policy, in chronological order (oldest bucket first).
fn aggregate_pass(samples: &Vec<Sample>, w: u64) -> (r: Vec<Option<BucketStat>>)
    requires
        samples@.len() > 0,
        sorted_by_time(samples@),
        forall|i: int| 0 <= i < samples@.len() ==> (#[trigger] samples@[i]).valid(),
        w >= 1,
        bucket_total(samples@, w as int) <= MAX_BUCKETS,
    ensures
        r@.len() == bucket_total(samples@, w as int),
        forall|k: int|
            0 <= k < r@.len() ==> stat_view(#[trigger] r@[k]) == resolved(
                samples@,
                samples@[0].timestamp as int,
                w as int,
                k,
            ),
{
    let ghost s = samples@;
    let n = samples.len();
    let t0 = samples[0].timestamp;
    let ghost gt0 = t0 as int;
    let ghost gw = w as int;
    proof {
        assert forall|j: int| 0 <= j < n implies (#[trigger] s[j]).timestamp >= t0 by {
            assert(s[0].timestamp <= s[j].timestamp);
        }
        assert forall|j: int| 0 <= j < n implies bucket_index(
            gt0,
            gw,
            (#[trigger] s[j]).timestamp as int,
        ) >= 0 by {
            lemma_bucket_index_nonneg(gt0, gw, s[j].timestamp as int);
        }
        assert forall|j: int| 0 <= j < n implies bucket_index(
            gt0,
            gw,
            (#[trigger] s[j]).timestamp as int,
        ) <= bucket_total(s, gw) - 1 by {
            assert(s[j].timestamp <= s.last().timestamp);
            lemma_bucket_index_monotone(gt0, gw, s[j].timestamp as int, s.last().timestamp as int);
        }
    }
    let last_ts = samples[n - 1].timestamp;
    let q: u64 = (last_ts - t0) / w;
    proof {
        assert(s[n - 1] == s.last());
        assert(q as int == bucket_index(gt0, gw, s.last().timestamp as int));
    }
    let total: usize = (q as usize) + 1;
    let mut out: Vec<Option<BucketStat>> = Vec::new();
    let mut i: usize = 0;
    let mut prev: Option<BucketStat> = None;
    let mut run: u64 = 0;
    let mut k: usize = 0;
    while k < total
        invariant
            s == samples@,
            n == s.len(),
            s.len() > 0,
            sorted_by_time(s),
            forall|j: int| 0 <= j < s.len() ==> (#[trigger] s[j]).valid(),
            gt0 == t0 as int,
            gt0 == s[0].timestamp as int,
            gw == w as int,
            w >= 1,
            forall|j: int| 0 <= j < n ==> (#[trigger] s[j]).timestamp >= t0,
            forall|j: int|
                0 <= j < n ==> 0 <= bucket_index(gt0, gw, (#[trigger] s[j]).timestamp as int)
                    < total,
            total == bucket_total(s, gw),
            total <= MAX_BUCKETS,
            k <= total,
            i <= n,
            forall|j: int|
                0 <= j < i ==> bucket_index(gt0, gw, (#[trigger] s[j]).timestamp as int) < k,
            forall|j: int|
                i <= j < n ==> bucket_index(gt0, gw, (#[trigger] s[j]).timestamp as int) >= k,
            out@.len() == k,
            forall|j: int|
                0 <= j < k ==> stat_view(#[trigger] out@[j]) == resolved(s, gt0, gw, j),
            stat_view(prev) == if k == 0 {
                None::<(int, int)>
            } else {
                resolved(s, gt0, gw, k - 1)
            },
            run as int == if k == 0 {
                0
            } else {
                empty_run(s, gt0, gw, k - 1)
            },
            run as int <= k as int,
        decreases total - k,
    {
        let ghost gk = k as int;
        let mut sum: i128 = 0;
        let mut count: usize = 0;
        proof {
            lemma_bucket_tail_irrelevant(s.take(i as int), gt0, gw, gk, 0);
            assert(s.take(i as int).take(0) =~= s.take(0int));
            assert(bucket_sum(s.take(0int), gt0, gw, gk) == 0);
            assert(bucket_count(s.take(0int), gt0, gw, gk) == 0);
        }
        while i < n && (samples[i].timestamp - t0) / w == k as u64
            invariant
                s == samples@,
                n == s.len(),
                sorted_by_time(s),
                forall|j: int| 0 <= j < s.len() ==> (#[trigger] s[j]).valid(),
                gt0 == t0 as int,
                gw == w as int,
                w >= 1,
                k < MAX_BUCKETS,
                gk == k as int,
                forall|j: int| 0 <= j < n ==> (#[trigger] s[j]).timestamp >= t0,
                i <= n,
                forall|j: int|
                    0 <= j < i ==> bucket_index(gt0, gw, (#[trigger] s[j]).timestamp as int) <= gk,
                forall|j: int|
                    i <= j < n ==> bucket_index(gt0, gw, (#[trigger] s[j]).timestamp as int) >= gk,
                count as int == bucket_count(s.take(i as int), gt0, gw, gk),
                sum as int == bucket_sum(s.take(i as int), gt0, gw, gk),
                count <= i,
            decreases n - i,
        {
            proof {
                lemma_bucket_take_step(s, gt0, gw, gk, i as int);
                lemma_bucket_sum_bounds(s.take(i as int), gt0, gw, gk);
                lemma_bucket_sum_bounds(s.take(i as int + 1), gt0, gw, gk);
                assert(s.take(i as int + 1).len() == i + 1);
            }
            sum = sum + (samples[i].temperature as i128);
            count = count + 1;
            i = i + 1;
        }
        proof {
            if i < n {
                assert(bucket_index(gt0, gw, s[i as int].timestamp as int) != gk);
            }
            assert forall|j: int|
                i <= j < n implies bucket_index(gt0, gw, (#[trigger] s[j]).timestamp as int)
                != gk by {
                assert(s[i as int].timestamp <= s[j].timestamp);
                lemma_bucket_index_monotone(
                    gt0,
                    gw,
                    s[i as int].timestamp as int,
                    s[j].timestamp as int,
                );
            }
            lemma_bucket_tail_irrelevant(s, gt0, gw, gk, i as int);
            assert(count as int == bucket_count(s, gt0, gw, gk));
            assert(sum as int == bucket_sum(s, gt0, gw, gk));
        }
        if count > 0 {
            prev = Some(BucketStat { sum_milli: sum, count });
            run = 0;
        } else {
            run = run + 1;
            if run > STALE_LIMIT {
                prev = None;
            }
            proof {
                assert(empty_run(s, gt0, gw, gk) == run as int);
            }
        }
        out.push(prev);
        k = k + 1;
    }
    out
}

impl Storage {
    /// Converts the irregular samples within `[from, to]` into a fixed-width
    /// bucketed average series with the forward-fill/staleness policy, in
    /// chronological order (oldest bucket first). Bucket boundaries start at
    /// the first in-range sample and advance by the configured averaging
    /// interval. The two range-query failure conditions stay distinct; a pass
    /// that would emit more than [`MAX_BUCKETS`] buckets fails as an internal
    /// inconsistency instead of truncating silently.
    pub fn per_minute_avg_fill(&self, from: u64, to: u64) -> (r: Result<
        Vec<Option<BucketStat>>,
        StorageError,
    >)
        requires
            self.wf(),
        ensures
            ({
                let found = range_filter(self@.samples, from, to);
                let w = self@.interval as int;
                &&& ((from > to) <==> r == Err::<Vec<Option<BucketStat>>, StorageError>(
                    StorageError::InvalidTimeRange,
                ))
                &&& ((from <= to && found.len() == 0) <==> r == Err::<
                    Vec<Option<BucketStat>>,
                    StorageError,
                >(StorageError::NoDataAvailable))
                &&& ((from <= to && found.len() > 0 && bucket_total(found, w) > MAX_BUCKETS)
                    <==> r == Err::<Vec<Option<BucketStat>>, StorageError>(
                    StorageError::InternalInconsistency,
                ))
                &&& (r matches Ok(v) ==> {
                    &&& found.len() > 0
                    &&& bucket_total(found, w) <= MAX_BUCKETS
                    &&& v@.len() == bucket_total(found, w)
                    &&& forall|k: int|
                        0 <= k < v@.len() ==> stat_view(#[trigger] v@[k]) == resolved(
                            found,
                            found[0].timestamp as int,
                            w,
                            k,
                        )
                })
            }),
    {
        let samples = match self.get_samples_in_range(from, to) {
            Ok(v) => v,
            Err(e) => {
                return Err(e);
            },
        };
        proof {
            lemma_range_filter_props(self@.samples, from, to);
            assert(samples@[0] == range_filter(self@.samples, from, to)[0]);
            assert(samples@[samples@.len() - 1] == samples@.last());
        }
        let w = self.averaging_interval() as u64;
        let n = samples.len();
        let t0 = samples[0].timestamp;
        let last_ts = samples[n - 1].timestamp;
        let q: u64 = (last_ts - t0) / w;
        if q >= (MAX_BUCKETS as u64) {
            return Err(StorageError::InternalInconsistency);
        }
        Ok(aggregate_pass(&samples, w))
    }
}

} // verus!
