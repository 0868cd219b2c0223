use vstd::prelude::*;

use std::collections::VecDeque;

use crate::config::Config;

verus! {

/// Lowest temperature a sample may carry, in thousandths of a degree Celsius.
pub const TEMP_MIN_MILLI: i64 = -1_000_000;

/// Highest temperature a sample may carry, in thousandths of a degree Celsius.
pub const TEMP_MAX_MILLI: i64 = 1_000_000;

/// One timestamped measurement accepted into the store.
///
/// The timestamp is a Unix time in whole seconds; the temperature is a
/// fixed-point value in thousandths of a degree Celsius.
#[derive(Clone, Copy, Debug, PartialEq, Eq, Structural)]
pub struct Sample {
    pub timestamp: u64,
    pub temperature: i64,
}

impl Sample {
    /// A sample the store accepts: its temperature lies within the range the
    /// backlog record format admits.
    pub open spec fn valid(self) -> bool {
        TEMP_MIN_MILLI <= self.temperature <= TEMP_MAX_MILLI
    }
}

/// The two query failure conditions are distinct and never merged; the third
/// condition marks an aggregation pass that would exceed its bucket ceiling.
#[derive(Clone, Copy, Debug, PartialEq, Eq, Structural)]
pub enum StorageError {
    /// The queried range has `from > to`.
    InvalidTimeRange,
    /// The range is well-formed but no stored sample intersects it.
    NoDataAvailable,
    /// The aggregation pass would have to emit more buckets than its hard
    /// ceiling allows.
    InternalInconsistency,
}

/// Mathematical state of a store: the retained samples in order, the
/// configured capacity bound and bucket width, the timestamp of the most
/// recently accepted sample, and the cached most recently stored sample.
pub ghost struct StoreModel {
    pub samples: Seq<Sample>,
    pub cap: Option<usize>,
    pub interval: u32,
    pub last_time: Option<u64>,
    pub last: Option<Sample>,
}

/// State of a freshly created store.
pub open spec fn init_model(cap: Option<usize>, interval: u32) -> StoreModel {
    StoreModel {
        samples: Seq::empty(),
        cap: cap,
        interval: interval,
        last_time: None,
        last: None,
    }
}

/// A sample is accepted unless it is older than the most recently accepted
/// timestamp.
pub open spec fn accepts(m: StoreModel, s: Sample) -> bool {
    !(m.last_time is Some && s.timestamp < m.last_time->Some_0)
}

/// Effect of offering one sample to the store: a stale sample changes
/// nothing; an accepted one always advances `last_time`, and is stored —
/// evicting the single oldest sample when a finite capacity is full — unless
/// the capacity is zero, in which case nothing is ever stored.
pub open spec fn step(m: StoreModel, s: Sample) -> StoreModel {
    if !accepts(m, s) {
        m
    } else {
        let stamped = StoreModel {
            samples: m.samples,
            cap: m.cap,
            interval: m.interval,
            last_time: Some(s.timestamp),
            last: m.last,
        };
        match m.cap {
            Some(c) => {
                if c == 0 {
                    stamped
                } else if m.samples.len() >= c {
                    StoreModel {
                        samples: m.samples.subrange(1, m.samples.len() as int).push(s),
                        last: Some(s),
                        ..stamped
                    }
                } else {
                    StoreModel { samples: m.samples.push(s), last: Some(s), ..stamped }
                }
            },
            None => StoreModel { samples: m.samples.push(s), last: Some(s), ..stamped },
        }
    }
}

/// Timestamps never decrease along the stored order.
pub open spec fn sorted_by_time(s: Seq<Sample>) -> bool {
    forall|i: int, j: int| 0 <= i <= j < s.len() ==> s[i].timestamp <= s[j].timestamp
}

/// Timestamps strictly increase along the order.
pub open spec fn strictly_increasing(s: Seq<Sample>) -> bool {
    forall|i: int, j: int| 0 <= i < j < s.len() ==> s[i].timestamp < s[j].timestamp
}

/// Invariant of every reachable store state.
pub open spec fn wf_model(m: StoreModel) -> bool {
    &&& sorted_by_time(m.samples)
    &&& forall|i: int| 0 <= i < m.samples.len() ==> (#[trigger] m.samples[i]).valid()
    &&& (m.cap matches Some(c) ==> m.samples.len() <= c)
    &&& m.samples.len() > 0 ==> m.last_time is Some
    &&& m.last_time matches Some(t) ==> forall|i: int|
        0 <= i < m.samples.len() ==> (#[trigger] m.samples[i]).timestamp <= t
    &&& m.interval >= 1
}

/// The samples of `s` whose timestamps lie within `[from, to]`, in stored
/// order.
pub open spec fn range_filter(s: Seq<Sample>, from: u64, to: u64) -> Seq<Sample> {
    s.filter(|x: Sample| from <= x.timestamp <= to)
}

/// An append-mostly, time-ordered, capacity-bounded sequence of samples.
///
/// Samples are accepted one at a time through [`Storage::push_raw_sample`];
/// disorder is rejected, and a finite capacity is enforced by evicting the
/// oldest sample. Queries never mutate the store.
pub struct Storage {
    samples: VecDeque<Sample>,
    max_capacity: Option<usize>,
    averaging_interval: u32,
    last_sample_time: Option<u64>,
    last: Option<Sample>,
}

impl View for Storage {
    type V = StoreModel;

    closed spec fn view(&self) -> StoreModel {
        StoreModel {
            samples: self.samples@,
            cap: self.max_capacity,
            interval: self.averaging_interval,
            last_time: self.last_sample_time,
            last: self.last,
        }
    }
}

/// An accepted valid sample keeps the store well formed.
pub proof fn lemma_step_preserves_wf(m: StoreModel, s: Sample)
    requires
        wf_model(m),
        s.valid(),
    ensures
        wf_model(step(m, s)),
{
    if accepts(m, s) {
        let next = step(m, s);
        assert forall|i: int, j: int|
            0 <= i <= j < next.samples.len() implies next.samples[i].timestamp
            <= next.samples[j].timestamp by {
            if j < next.samples.len() - 1 {
                assert(sorted_by_time(m.samples));
            }
        }
    }
}

impl Storage {
    /// The store invariant; established by [`Storage::new`] and preserved by
    /// every operation.
    pub open spec fn wf(&self) -> bool {
        wf_model(self@)
    }

    /// Creates an empty store with the configured capacity bound and bucket
    /// width. The bucket width must be positive: a zero width would make the
    /// averaging pass meaningless.
    pub fn new(config: &Config) -> (store: Storage)
        requires
            config.averaging_interval >= 1,
        ensures
            store.wf(),
            store@ == init_model(config.max_capacity, config.averaging_interval),
    {
        Storage {
            samples: VecDeque::new(),
            max_capacity: config.max_capacity,
            averaging_interval: config.averaging_interval,
            last_sample_time: None,
            last: None,
        }
    }

    /// Offers one sample to the store, exactly as [`step`] describes: a
    /// sample older than the last accepted timestamp is dropped without any
    /// state change; otherwise the sample is recorded, evicting the oldest
    /// one when a finite capacity is full, and storing nothing at capacity
    /// zero.
    pub fn push_raw_sample(&mut self, sample: Sample)
        requires
            old(self).wf(),
            sample.valid(),
        ensures
            final(self).wf(),
            final(self)@ == step(old(self)@, sample),
    {
        proof {
            lemma_step_preserves_wf(old(self)@, sample);
        }
        if let Some(t) = self.last_sample_time {
            if sample.timestamp < t {
                return ;
            }
        }
        self.last_sample_time = Some(sample.timestamp);
        if let Some(capacity) = self.max_capacity {
            if capacity == 0 {
                return ;
            }
            if self.samples.len() >= capacity {
                let _evicted = self.samples.pop_front();
            }
        }
        self.samples.push_back(sample);
        self.last = Some(sample);
    }

    /// Ingests one reading stamped with the given time: builds the sample and
    /// feeds it through the same acceptance logic as any other insert. The
    /// humidity channel is carried by the caller but not retained.
    pub fn add_measurement(&mut self, temp: i64, _hum: i64, timestamp: u64)
        requires
            old(self).wf(),
            TEMP_MIN_MILLI <= temp <= TEMP_MAX_MILLI,
        ensures
            final(self).wf(),
            final(self)@ == step(old(self)@, Sample { timestamp, temperature: temp }),
    {
        let sample = Sample { timestamp, temperature: temp };
        self.push_raw_sample(sample);
    }

    /// All stored samples with `from <= timestamp <= to`, in stored order.
    /// `from > to` is an invalid range; a well-formed range that intersects
    /// nothing is a distinct no-data condition.
    pub fn get_samples_in_range(&self, from: u64, to: u64) -> (r: Result<
        Vec<Sample>,
        StorageError,
    >)
        requires
            self.wf(),
        ensures
            (from > to) <==> r == Err::<Vec<Sample>, StorageError>(StorageError::InvalidTimeRange),
            (from <= to && range_filter(self@.samples, from, to).len() == 0) <==> r == Err::<
                Vec<Sample>,
                StorageError,
            >(StorageError::NoDataAvailable),
            (from <= to && range_filter(self@.samples, from, to).len() > 0) <==> (r matches Ok(v)
                && v@ == range_filter(self@.samples, from, to)),
    {
        if from > to {
            return Err(StorageError::InvalidTimeRange);
        }
        let ghost pred = |x: Sample| from <= x.timestamp <= to;
        let mut found: Vec<Sample> = Vec::new();
        let n = self.samples.len();
        let mut i: usize = 0;
        while i < n
            invariant
                i <= n,
                n == self@.samples.len(),
                self.wf(),
                pred == (|x: Sample| from <= x.timestamp <= to),
                found@ == self@.samples.take(i as int).filter(pred),
            decreases n - i,
        {
            let s = self.samples[i];
            proof {
                lemma_filter_take_step(self@.samples, pred, i as int);
            }
            if from <= s.timestamp && s.timestamp <= to {
                found.push(s);
            }
            i += 1;
        }
        proof {
            assert(self@.samples.take(n as int) =~= self@.samples);
        }
        if found.len() == 0 {
            Err(StorageError::NoDataAvailable)
        } else {
            Ok(found)
        }
    }

    /// The earliest stored sample within `[from, from + duration]`, if any;
    /// the range is clipped at the largest representable time.
    pub fn read_sample(&self, from: u64, duration: u64) -> (r: Result<Sample, StorageError>)
        requires
            self.wf(),
        ensures
            ({
                let found = range_filter(self@.samples, from, sat_add(from, duration));
                &&& (found.len() > 0 <==> (r matches Ok(s) && s == found[0]))
                &&& (found.len() == 0 <==> r == Err::<Sample, StorageError>(
                    StorageError::NoDataAvailable,
                ))
            }),
    {
        let to = if duration > u64::MAX - from {
            u64::MAX
        } else {
            from + duration
        };
        match self.get_samples_in_range(from, to) {
            Ok(v) => Ok(v[0]),
            Err(e) => Err(e),
        }
    }

    /// The configured bucket width of the averaging query, in seconds.
    pub fn averaging_interval(&self) -> (w: u32)
        ensures
            w == self@.interval,
    {
        self.averaging_interval
    }

    /// The most recently stored sample, served from the O(1) cache.
    pub fn get_last_sample(&self) -> (r: Option<Sample>)
        ensures
            r == self@.last,
    {
        self.last
    }

    /// Number of retained samples.
    pub fn len(&self) -> (n: usize)
        ensures
            n == self@.samples.len(),
    {
        self.samples.len()
    }

    /// Whether the store retains no samples.
    pub fn is_empty(&self) -> (r: bool)
        ensures
            r == (self@.samples.len() == 0),
    {
        self.samples.len() == 0
    }

    /// The newest retained sample: the tail of the buffer.
    pub fn latest_sample(&self) -> (r: Option<Sample>)
        ensures
            r == if self@.samples.len() > 0 {
                Some(self@.samples.last())
            } else {
                None::<Sample>
            },
    {
        let n = self.samples.len();
        if n > 0 {
            Some(self.samples[n - 1])
        } else {
            None
        }
    }

    /// The oldest retained sample: the head of the buffer.
    pub fn oldest_sample(&self) -> (r: Option<Sample>)
        ensures
            r == if self@.samples.len() > 0 {
                Some(self@.samples[0])
            } else {
                None::<Sample>
            },
    {
        if self.samples.len() > 0 {
            Some(self.samples[0])
        } else {
            None
        }
    }

    /// Appends a sample directly, bypassing eviction and the latest-sample
    /// cache; the caller guarantees everything the bypassed checks would
    /// have enforced. Intended for seeding a store in tests.
    pub fn add_sample_direct(&mut self, sample: Sample)
        requires
            old(self).wf(),
            sample.valid(),
            accepts(old(self)@, sample),
            old(self)@.cap matches Some(c) ==> c > 0 && old(self)@.samples.len() < c,
        ensures
            final(self).wf(),
            final(self)@ == (StoreModel {
                samples: old(self)@.samples.push(sample),
                last_time: Some(sample.timestamp),
                ..old(self)@
            }),
    {
        self.samples.push_back(sample);
        self.last_sample_time = Some(sample.timestamp);
    }
}

/// The range filter keeps stored order and sample validity, and every sample
/// it keeps lies within the queried range and no later than the last stored
/// sample.
pub proof fn lemma_range_filter_props(s: Seq<Sample>, from: u64, to: u64)
    requires
        sorted_by_time(s),
        forall|i: int| 0 <= i < s.len() ==> (#[trigger] s[i]).valid(),
    ensures
        sorted_by_time(range_filter(s, from, to)),
        forall|i: int|
            0 <= i < range_filter(s, from, to).len() ==> (#[trigger] range_filter(s, from, to)[i]).valid(),
        forall|i: int|
            0 <= i < range_filter(s, from, to).len() ==> from <= (#[trigger] range_filter(
                s,
                from,
                to,
            )[i]).timestamp <= to,
        forall|i: int|
            0 <= i < range_filter(s, from, to).len() ==> s.len() > 0 && (#[trigger] range_filter(
                s,
                from,
                to,
            )[i]).timestamp <= s.last().timestamp,
    decreases s.len(),
{
    reveal_with_fuel(Seq::filter, 1);
    let f = range_filter(s, from, to);
    if s.len() > 0 {
        let d = s.drop_last();
        assert forall|i: int, j: int|
            0 <= i <= j < d.len() implies d[i].timestamp <= d[j].timestamp by {
            assert(d[i] == s[i]);
            assert(d[j] == s[j]);
        }
        assert forall|i: int| 0 <= i < d.len() implies (#[trigger] d[i]).valid() by {
            assert(d[i] == s[i]);
        }
        lemma_range_filter_props(d, from, to);
        let fd = range_filter(d, from, to);
        if d.len() > 0 {
            assert(d.last() == s[s.len() - 2]);
            assert(d.last().timestamp <= s.last().timestamp);
        }
        assert forall|i: int, j: int|
            0 <= i <= j < f.len() implies f[i].timestamp <= f[j].timestamp by {
            if j < fd.len() {
                assert(f[i] == fd[i]);
                assert(f[j] == fd[j]);
            } else {
                assert(f[j] == s.last());
                if i < fd.len() {
                    assert(f[i] == fd[i]);
                }
            }
        }
    }
}

/// `from + duration`, clipped at the largest representable time.
pub open spec fn sat_add(a: u64, b: u64) -> u64 {
    if a + b > u64::MAX {
        u64::MAX
    } else {
        (a + b) as u64
    }
}

/// Extending the scanned prefix by one element extends its filtered image
/// by that element exactly when the element matches.
proof fn lemma_filter_take_step<A>(s: Seq<A>, pred: spec_fn(A) -> bool, i: int)
    requires
        0 <= i < s.len(),
    ensures
        s.take(i + 1).filter(pred) == if pred(s[i]) {
            s.take(i).filter(pred).push(s[i])
        } else {
            s.take(i).filter(pred)
        },
{
    reveal_with_fuel(Seq::filter, 1);
    assert(s.take(i + 1).drop_last() =~= s.take(i));
    assert(s.take(i + 1).last() == s[i]);
}

/// Replays a sequence of offered samples through [`step`], first element
/// first.
pub open spec fn run_model(m: StoreModel, inserts: Seq<Sample>) -> StoreModel
    decreases inserts.len(),
{
    if inserts.len() == 0 {
        m
    } else {
        run_model(step(m, inserts[0]), inserts.subrange(1, inserts.len() as int))
    }
}

/// Replaying time-ordered inserts into an unbounded store appends them all,
/// leaving the cache and clock at the last insert.
pub proof fn lemma_run_unbounded(m: StoreModel, inserts: Seq<Sample>)
    requires
        m.cap is None,
        sorted_by_time(inserts),
        m.last_time matches Some(t) ==> (inserts.len() > 0 ==> t <= inserts[0].timestamp),
    ensures
        run_model(m, inserts).samples == m.samples + inserts,
        run_model(m, inserts).cap == m.cap,
        run_model(m, inserts).interval == m.interval,
        run_model(m, inserts).last == if inserts.len() > 0 {
            Some(inserts.last())
        } else {
            m.last
        },
        run_model(m, inserts).last_time == if inserts.len() > 0 {
            Some(inserts.last().timestamp)
        } else {
            m.last_time
        },
    decreases inserts.len(),
{
    if inserts.len() == 0 {
        assert(m.samples + inserts =~= m.samples);
    } else {
        let s0 = inserts[0];
        let rest = inserts.subrange(1, inserts.len() as int);
        let m1 = step(m, s0);
        assert(sorted_by_time(rest)) by {
            assert forall|i: int, j: int|
                0 <= i <= j < rest.len() implies rest[i].timestamp <= rest[j].timestamp by {
                assert(rest[i] == inserts[i + 1]);
                assert(rest[j] == inserts[j + 1]);
            }
        }
        if rest.len() > 0 {
            assert(rest[0] == inserts[1]);
        }
        lemma_run_unbounded(m1, rest);
        assert(m1.samples + rest =~= m.samples + inserts);
        if rest.len() > 0 {
            assert(rest.last() == inserts.last());
        }
    }
}

/// Replaying time-ordered inserts into a store of finite positive capacity
/// keeps exactly the most recent `cap` of everything seen, in order.
pub proof fn lemma_run_bounded(m: StoreModel, inserts: Seq<Sample>, cap: usize)
    requires
        m.cap == Some(cap),
        cap >= 1,
        m.samples.len() <= cap,
        sorted_by_time(inserts),
        m.last_time matches Some(t) ==> (inserts.len() > 0 ==> t <= inserts[0].timestamp),
    ensures
        ({
            let total = m.samples + inserts;
            run_model(m, inserts).samples == if total.len() <= cap {
                total
            } else {
                total.skip(total.len() - cap)
            }
        }),
    decreases inserts.len(),
{
    let total = m.samples + inserts;
    if inserts.len() == 0 {
        assert(total =~= m.samples);
    } else {
        let s0 = inserts[0];
        let rest = inserts.subrange(1, inserts.len() as int);
        let m1 = step(m, s0);
        assert(sorted_by_time(rest)) by {
            assert forall|i: int, j: int|
                0 <= i <= j < rest.len() implies rest[i].timestamp <= rest[j].timestamp by {
                assert(rest[i] == inserts[i + 1]);
                assert(rest[j] == inserts[j + 1]);
            }
        }
        if rest.len() > 0 {
            assert(rest[0] == inserts[1]);
        }
        if m.samples.len() < cap {
            lemma_run_bounded(m1, rest, cap);
            assert(m1.samples + rest =~= total);
        } else {
            lemma_run_bounded(m1, rest, cap);
            assert(m1.samples + rest =~= total.skip(1));
            let total1 = m1.samples + rest;
            if total1.len() <= cap {
                assert(total.skip(total.len() - cap) =~= total1);
            } else {
                assert(total1.skip(total1.len() - cap) =~= total.skip(total.len() - cap));
            }
        }
    }
}

/// LAW (unbounded ordered ingestion): with no capacity bound, a run of
/// inserts with strictly increasing timestamps is retained in full — the
/// store ends holding exactly the inserted samples in order, so its length is
/// the insert count and its oldest and latest samples are the first and last
/// inserted values.
pub proof fn lemma_unbounded_ordered_ingest(interval: u32, inserts: Seq<Sample>)
    requires
        strictly_increasing(inserts),
    ensures
        run_model(init_model(None, interval), inserts).samples == inserts,
        inserts.len() > 0 ==> run_model(init_model(None, interval), inserts).last == Some(
            inserts.last(),
        ),
{
    assert(sorted_by_time(inserts)) by {
        assert forall|i: int, j: int|
            0 <= i <= j < inserts.len() implies inserts[i].timestamp <= inserts[j].timestamp by {
            if i < j {
                assert(inserts[i].timestamp < inserts[j].timestamp);
            }
        }
    }
    lemma_run_unbounded(init_model(None, interval), inserts);
    assert(Seq::<Sample>::empty() + inserts =~= inserts);
}

/// LAW (capacity eviction): with capacity `cap >= 1`, ordered ingestion keeps
/// exactly the most recent `cap` inserts once more than `cap` have been
/// offered, in order; fewer are kept in full.
pub proof fn lemma_bounded_ordered_ingest(interval: u32, inserts: Seq<Sample>, cap: usize)
    requires
        cap >= 1,
        strictly_increasing(inserts),
    ensures
        inserts.len() > cap ==> run_model(init_model(Some(cap), interval), inserts).samples
            == inserts.skip(inserts.len() - cap),
        inserts.len() <= cap ==> run_model(init_model(Some(cap), interval), inserts).samples
            == inserts,
{
    assert(sorted_by_time(inserts)) by {
        assert forall|i: int, j: int|
            0 <= i <= j < inserts.len() implies inserts[i].timestamp <= inserts[j].timestamp by {
            if i < j {
                assert(inserts[i].timestamp < inserts[j].timestamp);
            }
        }
    }
    lemma_run_bounded(init_model(Some(cap), interval), inserts, cap);
    assert(Seq::<Sample>::empty() + inserts =~= inserts);
    if inserts.len() > cap {
        assert((Seq::<Sample>::empty() + inserts).skip(inserts.len() - cap) =~= inserts.skip(
            inserts.len() - cap,
        ));
    }
}

/// LAW (capacity one): a store of capacity one always holds exactly the most
/// recently accepted sample.
pub proof fn lemma_capacity_one_ingest(interval: u32, inserts: Seq<Sample>)
    requires
        strictly_increasing(inserts),
        inserts.len() >= 1,
    ensures
        run_model(init_model(Some(1), interval), inserts).samples == seq![inserts.last()],
{
    lemma_bounded_ordered_ingest(interval, inserts, 1);
    if inserts.len() > 1 {
        assert(inserts.skip(inserts.len() - 1) =~= seq![inserts.last()]);
    } else {
        assert(inserts =~= seq![inserts.last()]);
    }
}

/// LAW (capacity zero): a store of capacity zero never holds a sample,
/// whatever is offered to it.
pub proof fn lemma_zero_capacity_ingest(m: StoreModel, inserts: Seq<Sample>)
    requires
        m.cap == Some(0usize),
        m.samples.len() == 0,
    ensures
        run_model(m, inserts).samples.len() == 0,
    decreases inserts.len(),
{
    if inserts.len() > 0 {
        lemma_zero_capacity_ingest(step(m, inserts[0]), inserts.subrange(1, inserts.len() as int));
    }
}

/// LAW (stale samples rejected): a sample older than the most recently
/// accepted timestamp leaves the store exactly as it was — its contents, its
/// length, its oldest and latest samples and its cache included.
pub proof fn lemma_stale_sample_rejected(m: StoreModel, s: Sample)
    requires
        m.last_time matches Some(t) && s.timestamp < t,
    ensures
        step(m, s) == m,
{
}

} // verus!
