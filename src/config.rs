use vstd::prelude::*;

verus! {

/// A span of time as whole seconds and the nanoseconds past them.
#[derive(Clone, Copy, Debug, PartialEq, Eq, Structural)]
pub struct Duration {
    pub secs: u64,
    pub nanos: u32,
}

impl Duration {
    pub open spec fn wf(self) -> bool {
        self.nanos < 1_000_000_000
    }

    /// A span of `secs` whole seconds.
    pub fn from_secs(secs: u64) -> (r: Duration)
        ensures
            r.secs == secs,
            r.nanos == 0,
            r.wf(),
    {
        Duration { secs, nanos: 0 }
    }

    /// The longest span that can be written: no time limit.
    pub fn max_value() -> (r: Duration)
        ensures
            r.secs == u64::MAX,
            r.nanos == 999_999_999,
            r.wf(),
    {
        Duration { secs: u64::MAX, nanos: 999_999_999 }
    }
}

/// How a store is opened and how its garbage collector behaves.
#[derive(Clone, Debug, PartialEq, Eq)]
pub struct StorageConfig {
    /// Where the store lives; `None` keeps it in memory.
    pub path: Option<String>,
    /// The number of unprotected blocks the cache may keep.
    pub cache_size_blocks: u64,
    /// The total size in bytes the cache may keep.
    pub cache_size_bytes: u64,
    /// How often the background sweep runs.
    pub gc_interval: Duration,
    /// How many blocks one incremental pass deletes at least before it yields.
    pub gc_min_blocks: usize,
    /// How long one incremental pass may run.
    pub gc_target_duration: Duration,
}

impl StorageConfig {
    /// A configuration that keeps `cache_size` unprotected blocks, with no
    /// limit on their size, and lets each collection pass run to completion.
    pub fn new(path: Option<String>, cache_size: u64, gc_interval: Duration) -> (r: StorageConfig)
        ensures
            r.path == path,
            r.cache_size_blocks == cache_size,
            r.cache_size_bytes == u64::MAX,
            r.gc_interval == gc_interval,
            r.gc_min_blocks == usize::MAX,
            r.gc_target_duration == (Duration { secs: u64::MAX, nanos: 999_999_999 }),
    {
        StorageConfig {
            path,
            cache_size_blocks: cache_size,
            cache_size_bytes: u64::MAX,
            gc_interval,
            gc_min_blocks: usize::MAX,
            gc_target_duration: Duration::max_value(),
        }
    }
}

} // verus!
