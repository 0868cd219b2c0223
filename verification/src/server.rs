use vstd::prelude::*;

use vstd::arithmetic::div_mod::lemma_fundamental_div_mod;

use crate::aggregate::{bucket_total, resolved, stat_view, BucketStat, MAX_BUCKETS};
use crate::storage::{range_filter, Storage, StorageError};

verus! {

/// `a * b`, clipped at the largest representable value.
pub open spec fn sat_mul(a: u64, b: u64) -> u64 {
    if a * b > u64::MAX {
        u64::MAX
    } else {
        (a * b) as u64
    }
}

/// `a - b`, clipped at zero.
pub open spec fn sat_sub(a: u64, b: u64) -> u64 {
    if b > a {
        0
    } else {
        (a - b) as u64
    }
}

/// Flat result of the temperature query: the averaged series in
/// chronological order (oldest bucket first), the timestamps of the oldest
/// and newest stored samples, the bucket width in whole minutes, and the
/// number of buckets.
pub struct TempsSummary {
    pub temperatures: Vec<Option<BucketStat>>,
    pub latest_time: Option<u64>,
    pub oldest_time: Option<u64>,
    pub interval_minutes: u64,
    pub count: usize,
}

impl Storage {
    /// Answers the query surface's "last `hours` hours up to `now`" request:
    /// aggregates the window `[now - hours * 3600, now]` and reports the
    /// series together with the stored extremes. The window start is clipped
    /// at the epoch, so the range is always well formed.
    pub fn temps_summary(&self, now: u64, hours: u64) -> (r: Result<TempsSummary, StorageError>)
        requires
            self.wf(),
        ensures
            ({
                let from = sat_sub(now, sat_mul(hours, 3600));
                let found = range_filter(self@.samples, from, now);
                let w = self@.interval as int;
                &&& ((found.len() == 0) <==> r == Err::<TempsSummary, StorageError>(
                    StorageError::NoDataAvailable,
                ))
                &&& ((found.len() > 0 && bucket_total(found, w) > MAX_BUCKETS) <==> r == Err::<
                    TempsSummary,
                    StorageError,
                >(StorageError::InternalInconsistency))
                &&& ((found.len() > 0 && bucket_total(found, w) <= MAX_BUCKETS) <==> r is Ok)
                &&& (r matches Ok(t) ==> {
                    &&& t.temperatures@.len() == bucket_total(found, w)
                    &&& forall|k: int|
                        0 <= k < t.temperatures@.len() ==> stat_view(#[trigger] t.temperatures@[k])
                            == resolved(found, found[0].timestamp as int, w, k)
                    &&& t.count == t.temperatures@.len()
                    &&& t.latest_time == if self@.samples.len() > 0 {
                        Some(self@.samples.last().timestamp)
                    } else {
                        None::<u64>
                    }
                    &&& t.oldest_time == if self@.samples.len() > 0 {
                        Some(self@.samples[0].timestamp)
                    } else {
                        None::<u64>
                    }
                    &&& t.interval_minutes == self@.interval as u64 / 60
                })
            }),
    {
        let span: u64 = if hours > u64::MAX / 3600 {
            proof {
                lemma_fundamental_div_mod(u64::MAX as int, 3600);
            }
            u64::MAX
        } else {
            hours * 3600
        };
        let from: u64 = if span > now {
            0
        } else {
            now - span
        };
        let temperatures = match self.per_minute_avg_fill(from, now) {
            Ok(v) => v,
            Err(e) => {
                return Err(e);
            },
        };
        let latest_time = match self.latest_sample() {
            Some(s) => Some(s.timestamp),
            None => None,
        };
        let oldest_time = match self.oldest_sample() {
            Some(s) => Some(s.timestamp),
            None => None,
        };
        let count = temperatures.len();
        let interval_minutes = (self.averaging_interval() as u64) / 60;
        Ok(
            TempsSummary {
                temperatures,
                latest_time,
                oldest_time,
                interval_minutes,
                count,
            },
        )
    }
}

} // verus!
