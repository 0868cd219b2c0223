use heat_monitor::aggregate::BucketStat;
use heat_monitor::config::Config;
use heat_monitor::storage::{Sample, Storage, StorageError};

const T0: u64 = 1_700_000_000;

fn config_with(max_capacity: Option<usize>, averaging_interval: u32) -> Config {
    Config {
        max_capacity,
        port: 3000,
        sampling_interval: 35,
        averaging_interval,
        listen_address: "0.0.0.0".to_string(),
        log_path: "test.log".to_string(),
        backlog: None,
        temp_sensor_url: "http://localhost:3000/temperature".to_string(),
    }
}

fn stat(sum_milli: i128, count: usize) -> BucketStat {
    BucketStat { sum_milli, count }
}

#[test]
fn test_serialize_exact_bytes() {
    let s = Sample { timestamp: 5, temperature: 23_500 };
    assert_eq!(s.serialize(), b"t1 5 23.500".to_vec());

    let neg = Sample { timestamp: 12, temperature: -500 };
    assert_eq!(neg.serialize(), b"t1 12 -0.500".to_vec());

    let whole = Sample { timestamp: 1_700_000_000, temperature: 7_000 };
    assert_eq!(whole.serialize(), b"t1 1700000000 7.000".to_vec());
}

#[test]
fn test_deserialize_valid_records() {
    assert_eq!(
        Sample::deserialize(&b"t1 1700000000 23.5".to_vec()),
        Some(Sample { timestamp: 1_700_000_000, temperature: 23_500 })
    );
    assert_eq!(
        Sample::deserialize(&b"t1 7 -2".to_vec()),
        Some(Sample { timestamp: 7, temperature: -2_000 })
    );
    assert_eq!(
        Sample::deserialize(&b"t1 0 0.25".to_vec()),
        Some(Sample { timestamp: 0, temperature: 250 })
    );
    // Whitespace-separated means any ASCII whitespace, leading and trailing
    // runs included.
    assert_eq!(
        Sample::deserialize(&b"  t1\t42  1.25 \r".to_vec()),
        Some(Sample { timestamp: 42, temperature: 1_250 })
    );
    // The extremes of the valid temperature range.
    assert_eq!(
        Sample::deserialize(&b"t1 5 1000.000".to_vec()),
        Some(Sample { timestamp: 5, temperature: 1_000_000 })
    );
    assert_eq!(
        Sample::deserialize(&b"t1 5 -1000".to_vec()),
        Some(Sample { timestamp: 5, temperature: -1_000_000 })
    );
    // The largest timestamp that fits 64 bits.
    assert_eq!(
        Sample::deserialize(&b"t1 18446744073709551615 1".to_vec()),
        Some(Sample { timestamp: u64::MAX, temperature: 1_000 })
    );
}

#[test]
fn test_deserialize_malformed_records() {
    // Wrong tag.
    assert_eq!(Sample::deserialize(&b"t2 5 1.0".to_vec()), None);
    // Wrong token count.
    assert_eq!(Sample::deserialize(&b"t1 5".to_vec()), None);
    assert_eq!(Sample::deserialize(&b"t1 5 1.0 extra".to_vec()), None);
    // Bad timestamp.
    assert_eq!(Sample::deserialize(&b"t1 5a 1.0".to_vec()), None);
    assert_eq!(Sample::deserialize(&b"t1 18446744073709551616 1.0".to_vec()), None);
    // Temperature out of range.
    assert_eq!(Sample::deserialize(&b"t1 5 1000.001".to_vec()), None);
    assert_eq!(Sample::deserialize(&b"t1 5 -1000.001".to_vec()), None);
    assert_eq!(Sample::deserialize(&b"t1 5 1001".to_vec()), None);
    // Temperature not a fixed-point decimal the format admits.
    assert_eq!(Sample::deserialize(&b"t1 5 1.2345".to_vec()), None);
    assert_eq!(Sample::deserialize(&b"t1 5 2.".to_vec()), None);
    assert_eq!(Sample::deserialize(&b"t1 5 .5".to_vec()), None);
    assert_eq!(Sample::deserialize(&b"t1 5 -".to_vec()), None);
    // Nothing at all.
    assert_eq!(Sample::deserialize(&b"".to_vec()), None);
    assert_eq!(Sample::deserialize(&b"   ".to_vec()), None);
}

#[test]
fn test_record_round_trip() {
    let samples = [
        Sample { timestamp: T0, temperature: 20_000 },
        Sample { timestamp: T0 + 1, temperature: -999 },
        Sample { timestamp: T0 + 2, temperature: 0 },
        Sample { timestamp: T0 + 3, temperature: 1_000_000 },
        Sample { timestamp: T0 + 4, temperature: -1_000_000 },
    ];
    for s in samples.iter() {
        assert_eq!(Sample::deserialize(&s.serialize()), Some(*s));
    }
}

#[test]
fn test_replay_backlog_round_trip() {
    // Write a run of valid records, replay them into a fresh unbounded
    // store, and find the same ordered temperature sequence again.
    let temps: [i64; 4] = [20_000, 20_500, 21_000, 19_000];
    let mut lines: Vec<Vec<u8>> = Vec::new();
    for (i, t) in temps.iter().enumerate() {
        let s = Sample { timestamp: T0 + (i as u64) * 30, temperature: *t };
        lines.push(s.serialize());
    }
    let mut store = Storage::new(&config_with(None, 120));
    let malformed = store.replay_backlog(&lines);
    assert_eq!(malformed, 0);
    assert_eq!(store.len(), temps.len());
    let replayed = store
        .get_samples_in_range(T0, T0 + 1000)
        .unwrap()
        .iter()
        .map(|s| s.temperature)
        .collect::<Vec<i64>>();
    assert_eq!(replayed, temps.to_vec());
}

#[test]
fn test_replay_backlog_skips_malformed() {
    let lines: Vec<Vec<u8>> = vec![
        b"t1 100 1.5".to_vec(),
        b"garbage".to_vec(),
        b"t1 200 2.5".to_vec(),
        b"t1 300 99999".to_vec(),
    ];
    let mut store = Storage::new(&config_with(None, 120));
    let malformed = store.replay_backlog(&lines);
    assert_eq!(malformed, 2);
    assert_eq!(store.len(), 2);
    assert_eq!(store.oldest_sample().unwrap().temperature, 1_500);
    assert_eq!(store.latest_sample().unwrap().temperature, 2_500);
}

#[test]
fn test_replay_backlog_enforces_order_and_capacity() {
    // An out-of-order record is dropped exactly as live input would be.
    let lines: Vec<Vec<u8>> = vec![b"t1 100 1.0".to_vec(), b"t1 50 2.0".to_vec()];
    let mut store = Storage::new(&config_with(None, 120));
    let malformed = store.replay_backlog(&lines);
    assert_eq!(malformed, 0);
    assert_eq!(store.len(), 1);
    assert_eq!(store.latest_sample().unwrap().temperature, 1_000);

    // Trailing excess is evicted: the most recent records survive.
    let lines2: Vec<Vec<u8>> = vec![
        b"t1 10 1.0".to_vec(),
        b"t1 20 2.0".to_vec(),
        b"t1 30 3.0".to_vec(),
    ];
    let mut bounded = Storage::new(&config_with(Some(2), 120));
    assert_eq!(bounded.replay_backlog(&lines2), 0);
    assert_eq!(bounded.len(), 2);
    assert_eq!(bounded.oldest_sample().unwrap().temperature, 2_000);
    assert_eq!(bounded.latest_sample().unwrap().temperature, 3_000);
}

#[test]
fn test_single_sample_bucket_is_exact() {
    // One sample at time T, bucket width W, queried over [T, T + W):
    // exactly one bucket holding that temperature exactly.
    let w: u32 = 120;
    let mut store = Storage::new(&config_with(None, w));
    store.add_measurement(21_517, 44_000, T0);
    let buckets = store.per_minute_avg_fill(T0, T0 + (w as u64) - 1).unwrap();
    assert_eq!(buckets, vec![Some(stat(21_517, 1))]);
}

#[test]
fn test_bucket_mean_is_exact_pair() {
    // Two samples in one bucket: the exact sum and count, so the mean
    // 20.5 degrees is represented without rounding.
    let mut store = Storage::new(&config_with(None, 120));
    store.add_measurement(20_000, 0, T0);
    store.add_measurement(21_000, 0, T0 + 10);
    let buckets = store.per_minute_avg_fill(T0, T0 + 60).unwrap();
    assert_eq!(buckets, vec![Some(stat(41_000, 2))]);
}

#[test]
fn test_forward_fill_and_staleness_gap() {
    // Samples ten buckets apart with width 60: the first five empty buckets
    // carry the last average forward, the ones past the staleness threshold
    // report no data until real samples appear again.
    let mut store = Storage::new(&config_with(None, 60));
    store.add_measurement(10_000, 0, T0);
    store.add_measurement(20_000, 0, T0 + 600);
    let buckets = store.per_minute_avg_fill(T0, T0 + 600).unwrap();
    let expected = vec![
        Some(stat(10_000, 1)), // bucket 0: the sample itself
        Some(stat(10_000, 1)), // buckets 1..=5: forward-filled
        Some(stat(10_000, 1)),
        Some(stat(10_000, 1)),
        Some(stat(10_000, 1)),
        Some(stat(10_000, 1)),
        None, // buckets 6..=9: more than 5 consecutive empties
        None,
        None,
        None,
        Some(stat(20_000, 1)), // bucket 10: data again
    ];
    assert_eq!(buckets, expected);
}

#[test]
fn test_aggregation_bucket_ceiling() {
    // A pass that would emit more buckets than the hard ceiling fails as an
    // internal inconsistency instead of truncating.
    let mut store = Storage::new(&config_with(None, 1));
    store.add_measurement(1_000, 0, T0);
    store.add_measurement(2_000, 0, T0 + 200_000);
    let result = store.per_minute_avg_fill(T0, T0 + 200_000);
    assert!(matches!(result, Err(StorageError::InternalInconsistency)));
}

#[test]
fn test_range_errors_are_distinct() {
    let mut store = Storage::new(&config_with(None, 120));
    store.add_measurement(20_000, 0, T0);
    // from > to is invalid whatever the store holds.
    assert!(matches!(
        store.get_samples_in_range(T0 + 1, T0),
        Err(StorageError::InvalidTimeRange)
    ));
    assert!(matches!(
        store.per_minute_avg_fill(T0 + 1, T0),
        Err(StorageError::InvalidTimeRange)
    ));
    // A well-formed range that intersects nothing is a no-data condition.
    assert!(matches!(
        store.get_samples_in_range(T0 + 100, T0 + 200),
        Err(StorageError::NoDataAvailable)
    ));
    assert!(matches!(
        store.per_minute_avg_fill(T0 + 100, T0 + 200),
        Err(StorageError::NoDataAvailable)
    ));
}

#[test]
fn test_stale_sample_rejected_changes_nothing() {
    let mut store = Storage::new(&config_with(None, 120));
    store.add_measurement(20_000, 0, T0);
    store.add_measurement(21_000, 0, T0 + 10);
    let before_len = store.len();
    let before_latest = store.latest_sample();
    let before_oldest = store.oldest_sample();
    let before_last = store.get_last_sample();

    store.add_measurement(30_000, 0, T0 + 5); // older than the last accepted

    assert_eq!(store.len(), before_len);
    assert_eq!(store.latest_sample(), before_latest);
    assert_eq!(store.oldest_sample(), before_oldest);
    assert_eq!(store.get_last_sample(), before_last);
}

#[test]
fn test_equal_timestamp_is_accepted() {
    let mut store = Storage::new(&config_with(None, 120));
    store.add_measurement(20_000, 0, T0);
    store.add_measurement(21_000, 0, T0); // not older: accepted
    assert_eq!(store.len(), 2);
    assert_eq!(store.latest_sample().unwrap().temperature, 21_000);
}

#[test]
fn test_capacity_zero_never_updates_cache() {
    let mut store = Storage::new(&config_with(Some(0), 120));
    store.add_measurement(20_000, 0, T0);
    assert!(store.get_last_sample().is_none());
    // The accepted timestamp still advances: an older sample stays rejected.
    store.add_measurement(25_000, 0, T0 - 1);
    assert!(store.is_empty());
}

#[test]
fn test_add_sample_direct_bypasses_cache() {
    let mut store = Storage::new(&config_with(None, 120));
    store.add_sample_direct(Sample { timestamp: T0, temperature: 5_000 });
    assert_eq!(store.len(), 1);
    assert_eq!(store.latest_sample().unwrap().temperature, 5_000);
    // The latest-sample cache is deliberately left untouched.
    assert!(store.get_last_sample().is_none());
}

#[test]
fn test_temps_summary_shape() {
    let now = T0 + 1000;
    let mut store = Storage::new(&config_with(None, 120));
    store.add_measurement(20_000, 0, now - 100);
    store.add_measurement(21_000, 0, now - 50);
    let summary = store.temps_summary(now, 1).unwrap();
    assert_eq!(summary.count, summary.temperatures.len());
    assert_eq!(summary.latest_time, Some(now - 50));
    assert_eq!(summary.oldest_time, Some(now - 100));
    assert_eq!(summary.interval_minutes, 2); // 120 seconds
    assert_eq!(summary.temperatures, vec![Some(stat(41_000, 2))]);
}

#[test]
fn test_temps_summary_no_data() {
    let store = Storage::new(&config_with(None, 120));
    let result = store.temps_summary(T0, 3);
    assert!(matches!(result, Err(StorageError::NoDataAvailable)));
}

#[test]
fn test_three_ordered_inserts_unbounded() {
    // Insert (20.0, t0), (21.0, t0+10s), (22.0, t0+20s) into an unbounded
    // store: latest 22.0, oldest 20.0, three retained.
    let mut store = Storage::new(&config_with(None, 120));
    store.add_measurement(20_000, 0, T0);
    store.add_measurement(21_000, 0, T0 + 10);
    store.add_measurement(22_000, 0, T0 + 20);
    assert_eq!(store.latest_sample().unwrap().temperature, 22_000);
    assert_eq!(store.oldest_sample().unwrap().temperature, 20_000);
    assert_eq!(store.len(), 3);
}

#[test]
fn test_capacity_two_keeps_most_recent() {
    // A capacity-2 store receiving 20.0, 21.0, 22.0 in order ends with
    // oldest 21.0, latest 22.0, two retained.
    let mut store = Storage::new(&config_with(Some(2), 120));
    store.add_measurement(20_000, 0, T0);
    store.add_measurement(21_000, 0, T0 + 1);
    store.add_measurement(22_000, 0, T0 + 2);
    assert_eq!(store.oldest_sample().unwrap().temperature, 21_000);
    assert_eq!(store.latest_sample().unwrap().temperature, 22_000);
    assert_eq!(store.len(), 2);
}

#[test]
fn test_sensor_handle_keeps_url() {
    let url = "http://localhost:3000/temperature".to_string();
    let sensor = heat_monitor::temp_sensor::TempSensor::new(&url);
    assert_eq!(sensor.url(), &url);
}
