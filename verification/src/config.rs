use vstd::prelude::*;

verus! {

/// Default hard ceiling on total memtable memory: 5 GiB.
pub const DEFAULT_TOTAL_LIMIT: u64 = 5 * 1024 * 1024 * 1024;

/// Default pressure threshold that triggers planning: 2 GiB.
pub const DEFAULT_SOFT_LIMIT: u64 = 2 * 1024 * 1024 * 1024;

/// Default minimum tablet size worth flushing: 1 MiB.
pub const DEFAULT_FLUSH_THRESHOLD: u64 = 1024 * 1024;

/// Default idleness age after which a tablet counts as cold: 30 minutes.
pub const DEFAULT_EVICT_LIFE_TIME_MS: u64 = 30 * 60 * 1000;

/// Default maximum number of regions flushed per tick.
pub const DEFAULT_MAX_FLUSH_BATCH: usize = 8;

/// Default tick period: 10 seconds.
pub const DEFAULT_CHECK_INTERVAL_MS: u64 = 10 * 1000;

/// Limits and periods that govern one controller run. Sizes are in bytes;
/// durations and instants are in milliseconds on the caller's monotonic
/// clock.
#[derive(Clone, Copy, Debug, PartialEq, Eq, Structural)]
pub struct Config {
    /// Hard ceiling on total memtable memory, in bytes.
    pub total_limit: u64,
    /// Pressure threshold that triggers planning, in bytes.
    pub soft_limit: u64,
    /// Minimum tablet size worth flushing, in bytes.
    pub flush_threshold: u64,
    /// Idleness age after which a tablet counts as cold, in milliseconds.
    pub evict_life_time: u64,
    /// Maximum number of regions flushed per tick.
    pub max_flush_batch: usize,
    /// Tick period, in milliseconds.
    pub check_interval: u64,
}

impl Config {
    /// A configuration is well formed when the soft limit does not exceed
    /// the hard limit and at least one region may be flushed per tick.
    pub open spec fn wf(&self) -> bool {
        &&& self.soft_limit <= self.total_limit
        &&& self.max_flush_batch >= 1
    }
}

impl Default for Config {
    /// The stock configuration: 5 GiB hard limit, 2 GiB soft limit, 1 MiB
    /// flush threshold, 30 minute cold age, batches of at most 8 regions,
    /// a tick every 10 seconds.
    fn default() -> (c: Config)
        ensures
            c.total_limit == DEFAULT_TOTAL_LIMIT,
            c.soft_limit == DEFAULT_SOFT_LIMIT,
            c.flush_threshold == DEFAULT_FLUSH_THRESHOLD,
            c.evict_life_time == DEFAULT_EVICT_LIFE_TIME_MS,
            c.max_flush_batch == DEFAULT_MAX_FLUSH_BATCH,
            c.check_interval == DEFAULT_CHECK_INTERVAL_MS,
            c.wf(),
    {
        Config {
            total_limit: DEFAULT_TOTAL_LIMIT,
            soft_limit: DEFAULT_SOFT_LIMIT,
            flush_threshold: DEFAULT_FLUSH_THRESHOLD,
            evict_life_time: DEFAULT_EVICT_LIFE_TIME_MS,
            max_flush_batch: DEFAULT_MAX_FLUSH_BATCH,
            check_interval: DEFAULT_CHECK_INTERVAL_MS,
        }
    }
}

} // verus!
