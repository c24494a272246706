use vstd::prelude::*;

use crate::scheduler::SchedulerConfig;

verus! {

/// Settings loaded once at startup.
#[derive(Clone, Debug)]
pub struct Config {
    pub schedule_interval_sec: u64,
    pub replication_factor: usize,
    /// Number of chunks per scheduling unit.
    pub scheduling_unit_size: usize,
    pub worker_storage_bytes: u64,
    pub s3_endpoint: String,
    pub buckets: Vec<String>,
    pub worker_inactive_timeout_sec: u64,
    pub worker_unreachable_timeout_sec: u64,
    pub worker_stale_timeout_sec: u64,
}

/// Seconds as milliseconds, saturated at the largest 64-bit value.
pub open spec fn secs_to_ms(s: u64) -> u64 {
    if s * 1000 > u64::MAX {
        u64::MAX
    } else {
        (s * 1000) as u64
    }
}

/// Seconds as milliseconds, saturated at the largest 64-bit value.
pub fn to_ms(s: u64) -> (r: u64)
    ensures
        r == secs_to_ms(s),
{
    if s > u64::MAX / 1000 {
        u64::MAX
    } else {
        s * 1000
    }
}

impl Config {
    /// The scheduler's settings, with times in milliseconds.
    pub fn scheduler_config(&self) -> (r: SchedulerConfig)
        ensures
            r.replication_factor == self.replication_factor,
            r.worker_storage_bytes == self.worker_storage_bytes,
            r.inactive_timeout == secs_to_ms(self.worker_inactive_timeout_sec),
            r.unreachable_timeout == secs_to_ms(self.worker_unreachable_timeout_sec),
            r.stale_timeout == secs_to_ms(self.worker_stale_timeout_sec),
    {
        SchedulerConfig {
            replication_factor: self.replication_factor,
            worker_storage_bytes: self.worker_storage_bytes,
            inactive_timeout: to_ms(self.worker_inactive_timeout_sec),
            unreachable_timeout: to_ms(self.worker_unreachable_timeout_sec),
            stale_timeout: to_ms(self.worker_stale_timeout_sec),
        }
    }
}

} // verus!
