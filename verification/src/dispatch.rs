//! Routing of events to workers.
//!
//! Accounts are partitioned over a fixed number of workers. The shard that
//! owns a client is a pure function of the client id alone, so all events for
//! one client always reach the same worker, in input order, and no two
//! workers ever share an account.

use vstd::prelude::*;

verus! {

/// The shard that owns a client's account: `client_id mod worker_count`.
pub open spec fn shard_spec(client_id: u64, worker_count: usize) -> int {
    client_id as int % worker_count as int
}

/// Computes the worker that an event must be forwarded to.
///
/// The result depends on the client id and the worker count alone, which is
/// what makes routing deterministic across runs.
pub fn shard_of(client_id: u64, worker_count: usize) -> (shard: usize)
    requires
        worker_count > 0,
    ensures
        shard == shard_spec(client_id, worker_count),
        shard < worker_count,
{
    (client_id % (worker_count as u64)) as usize
}

} // verus!
