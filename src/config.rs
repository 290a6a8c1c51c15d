use vstd::prelude::*;

verus! {

/// Settings of a pool, fixed once the pool is built. Durations are in milliseconds.
#[derive(Clone, Copy, Debug, PartialEq, Eq, Structural)]
pub struct Config {
    /// Idle time after which a cached connection is closed by the HTTP client.
    pub keep_alive_timeout_ms: u64,
    /// Deadline armed when a worker begins executing a transaction.
    pub transaction_timeout_ms: u64,
    /// Hard cap on the transactions one worker has in flight at once.
    pub max_transactions_per_worker: usize,
    /// Number of workers.
    pub workers: usize,
}

/// Why a pool could not be built.
#[derive(Clone, Copy, Debug, PartialEq, Eq, Structural)]
pub enum StartupError {
    /// `workers` or `max_transactions_per_worker` is zero, or their product
    /// does not fit in a `usize`.
    InvalidConfig,
}

impl Config {
    /// Both counts are positive, and the pool's capacity fits in a `usize`.
    pub open spec fn valid(&self) -> bool {
        &&& self.workers > 0
        &&& self.max_transactions_per_worker > 0
        &&& self.capacity() <= usize::MAX
    }

    /// The most transactions the whole pool may have in flight.
    pub open spec fn capacity(&self) -> int {
        self.workers * self.max_transactions_per_worker
    }

    pub fn new(
        keep_alive_timeout_ms: u64,
        transaction_timeout_ms: u64,
        max_transactions_per_worker: usize,
        workers: usize,
    ) -> (r: Config)
        ensures
            r.keep_alive_timeout_ms == keep_alive_timeout_ms,
            r.transaction_timeout_ms == transaction_timeout_ms,
            r.max_transactions_per_worker == max_transactions_per_worker,
            r.workers == workers,
    {
        Config { keep_alive_timeout_ms, transaction_timeout_ms, max_transactions_per_worker, workers }
    }

    /// Whether both counts are positive and the capacity fits in a `usize`.
    pub fn is_valid(&self) -> (r: bool)
        ensures
            r == self.valid(),
    {
        self.workers > 0 && self.max_transactions_per_worker > 0
            && self.workers.checked_mul(self.max_transactions_per_worker).is_some()
    }
}

} // verus!
