//! Time-series retention and aggregation engine for a temperature monitor.
//!
//! The core is a capacity-bounded, time-ordered sample buffer
//! ([`storage::Storage`]) together with a fixed-cadence averaging query with a
//! forward-fill/staleness policy ([`storage::Storage::per_minute_avg_fill`])
//! and the line-based backlog record codec ([`record`]).
//!
//! Temperatures are carried as fixed-point integers in thousandths of a
//! degree, timestamps as whole Unix seconds; bucket averages are returned as
//! exact (sum, count) pairs so that no rounding happens inside the engine.

pub mod aggregate;
pub mod config;
pub mod record;
pub mod server;
pub mod storage;
pub mod temp_sensor;
