use vstd::prelude::*;

verus! {

/// Runtime configuration of the monitor.
///
/// Only `max_capacity` (the optional bound on the number of retained samples)
/// and `averaging_interval` (the bucket width of the averaging query, in
/// seconds) drive the engine itself; the remaining fields describe the
/// process around it and are merely carried.
pub struct Config {
    pub temp_sensor_url: String,
    /// Maximum number of retained samples; `None` means unbounded.
    pub max_capacity: Option<usize>,
    /// Seconds between two sensor polls.
    pub sampling_interval: u64,
    pub port: u16,
    pub listen_address: String,
    pub log_path: String,
    /// Optional path of the append-only backlog file.
    pub backlog: Option<String>,
    /// Bucket width of the averaging query, in seconds.
    pub averaging_interval: u32,
}

} // verus!
