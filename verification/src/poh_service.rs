//! The decisions of the service that drives the hash chain at a configured
//! rate: the background thread repeatedly advances the recorder's cursor in
//! bounded batches until one hash short of a full tick, then closes the
//! tick. The batch size bounds the time a recording caller waits for the
//! recorder's lock.
use vstd::prelude::*;

verus! {

/// The number of hashes the service batches together per lock acquisition.
/// A smaller batch costs hash throughput; a larger one makes transaction-
/// recording callers wait longer for the lock.
pub const NUM_HASHES_PER_BATCH: u64 = 128;

/// The size of the next batch of hash applications: a full batch, or
/// whatever remains of the current tick.
pub fn next_batch_size(remaining_hashes: u64) -> (r: u64)
    ensures
        r == (if remaining_hashes < NUM_HASHES_PER_BATCH {
            remaining_hashes
        } else {
            NUM_HASHES_PER_BATCH
        }),
        r <= remaining_hashes,
        remaining_hashes > 0 ==> r > 0,
{
    if remaining_hashes < NUM_HASHES_PER_BATCH {
        remaining_hashes
    } else {
        NUM_HASHES_PER_BATCH
    }
}

/// How many plain hash applications the service issues before it closes a
/// tick: one short of the configured count, since closing the tick applies
/// the final hash itself.
pub fn hashes_before_tick(hashes_per_tick: u64) -> (r: u64)
    requires
        hashes_per_tick > 0,
    ensures
        r == hashes_per_tick - 1,
{
    hashes_per_tick - 1
}

} // verus!
