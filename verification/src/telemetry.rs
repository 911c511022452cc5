//! Counters that each worker keeps for itself, and the sums over all
//! workers that are reported.

use vstd::prelude::*;

verus! {

/// What one worker counts. A counter that has reached the largest value
/// stays there.
#[derive(Clone, Copy, Debug, PartialEq, Eq, Structural)]
pub struct WorkerCounters {
    /// Commands answered.
    pub commands_processed: u64,
    /// Bytes read from clients.
    pub bytes_in: u64,
    /// Bytes queued for clients.
    pub bytes_out: u64,
    /// Connections owned right now.
    pub active_connections: u64,
    /// Connections waiting for a resource right now.
    pub blocked_clients: u64,
}

/// The sums over all workers at one moment.
#[derive(Clone, Copy, Debug, PartialEq, Eq, Structural)]
pub struct TelemetrySnapshot {
    pub commands_processed: u128,
    pub bytes_in: u128,
    pub bytes_out: u128,
    pub active_connections: u128,
    pub blocked_clients: u128,
}

/// `a + b`, or the largest value where that is too large.
pub open spec fn capped(a: u64, b: int) -> u64 {
    if a + b > u64::MAX {
        u64::MAX
    } else {
        (a + b) as u64
    }
}

/// The sum of one counter over `workers`.
pub open spec fn sum_of(workers: Seq<WorkerCounters>, counter: spec_fn(WorkerCounters) -> u64) -> nat
    decreases workers.len(),
{
    if workers.len() == 0 {
        0
    } else {
        sum_of(workers.drop_last(), counter) + counter(workers.last()) as nat
    }
}

pub open spec fn commands_processed() -> spec_fn(WorkerCounters) -> u64 {
    |c: WorkerCounters| c.commands_processed
}

pub open spec fn bytes_in() -> spec_fn(WorkerCounters) -> u64 {
    |c: WorkerCounters| c.bytes_in
}

pub open spec fn bytes_out() -> spec_fn(WorkerCounters) -> u64 {
    |c: WorkerCounters| c.bytes_out
}

pub open spec fn active_connections() -> spec_fn(WorkerCounters) -> u64 {
    |c: WorkerCounters| c.active_connections
}

pub open spec fn blocked_clients() -> spec_fn(WorkerCounters) -> u64 {
    |c: WorkerCounters| c.blocked_clients
}

/// The sums of all counters over `workers`.
pub open spec fn merged(workers: Seq<WorkerCounters>) -> TelemetrySnapshot {
    TelemetrySnapshot {
        commands_processed: sum_of(workers, commands_processed()) as u128,
        bytes_in: sum_of(workers, bytes_in()) as u128,
        bytes_out: sum_of(workers, bytes_out()) as u128,
        active_connections: sum_of(workers, active_connections()) as u128,
        blocked_clients: sum_of(workers, blocked_clients()) as u128,
    }
}

impl WorkerCounters {
    /// Counters that have counted nothing.
    pub fn new() -> (c: WorkerCounters)
        ensures
            c == (WorkerCounters {
                commands_processed: 0,
                bytes_in: 0,
                bytes_out: 0,
                active_connections: 0,
                blocked_clients: 0,
            }),
    {
        WorkerCounters {
            commands_processed: 0,
            bytes_in: 0,
            bytes_out: 0,
            active_connections: 0,
            blocked_clients: 0,
        }
    }

    /// Counts one command as answered.
    pub fn record_command(&mut self)
        ensures
            *final(self) == (WorkerCounters {
                commands_processed: capped(old(self).commands_processed, 1),
                ..*old(self)
            }),
    {
        self.commands_processed = self.commands_processed.saturating_add(1);
    }

    /// Counts `n` bytes as read.
    pub fn record_read(&mut self, n: usize)
        ensures
            *final(self) == (WorkerCounters {
                bytes_in: capped(old(self).bytes_in, n as int),
                ..*old(self)
            }),
    {
        self.bytes_in = self.bytes_in.saturating_add(n as u64);
    }

    /// Counts `n` bytes as queued for clients.
    pub fn record_write(&mut self, n: usize)
        ensures
            *final(self) == (WorkerCounters {
                bytes_out: capped(old(self).bytes_out, n as int),
                ..*old(self)
            }),
    {
        self.bytes_out = self.bytes_out.saturating_add(n as u64);
    }

    /// Sets how many connections the worker owns, and how many of them are
    /// blocked.
    pub fn set_connections(&mut self, active: usize, blocked: usize)
        ensures
            *final(self) == (WorkerCounters {
                active_connections: active as u64,
                blocked_clients: blocked as u64,
                ..*old(self)
            }),
    {
        self.active_connections = active as u64;
        self.blocked_clients = blocked as u64;
    }
}

proof fn lemma_sum_bound(workers: Seq<WorkerCounters>, counter: spec_fn(WorkerCounters) -> u64)
    ensures
        sum_of(workers, counter) <= workers.len() * 0xffff_ffff_ffff_ffff,
    decreases workers.len(),
{
    if workers.len() > 0 {
        lemma_sum_bound(workers.drop_last(), counter);
        assert((workers.len() - 1) * 0xffff_ffff_ffff_ffff + 0xffff_ffff_ffff_ffff == workers.len()
            * 0xffff_ffff_ffff_ffff) by (nonlinear_arith);
    }
}

proof fn lemma_sum_fits(workers: Seq<WorkerCounters>, counter: spec_fn(WorkerCounters) -> u64)
    requires
        workers.len() <= usize::MAX,
    ensures
        sum_of(workers, counter) <= u128::MAX,
{
    lemma_sum_bound(workers, counter);
    let n = workers.len() as int;
    assert(n * 0xffff_ffff_ffff_ffff <= 0xffff_ffff_ffff_ffff * 0xffff_ffff_ffff_ffff) by (nonlinear_arith)
        requires
            0 <= n <= 0xffff_ffff_ffff_ffff,
    ;
    assert(0xffff_ffff_ffff_ffff * 0xffff_ffff_ffff_ffff <= u128::MAX) by (nonlinear_arith);
}

/// Merges the counters of all workers into one snapshot: each counter of
/// the snapshot is the sum of that counter over the workers. The sums are
/// wide enough never to overflow.
pub fn snapshot(workers: &[WorkerCounters]) -> (s: TelemetrySnapshot)
    ensures
        s == merged(workers@),
{
    let mut s = TelemetrySnapshot {
        commands_processed: 0,
        bytes_in: 0,
        bytes_out: 0,
        active_connections: 0,
        blocked_clients: 0,
    };
    let mut i: usize = 0;
    assert(workers@.take(0) =~= Seq::<WorkerCounters>::empty());
    while i < workers.len()
        invariant
            i <= workers.len(),
            s.commands_processed == sum_of(workers@.take(i as int), commands_processed()),
            s.bytes_in == sum_of(workers@.take(i as int), bytes_in()),
            s.bytes_out == sum_of(workers@.take(i as int), bytes_out()),
            s.active_connections == sum_of(workers@.take(i as int), active_connections()),
            s.blocked_clients == sum_of(workers@.take(i as int), blocked_clients()),
        decreases workers.len() - i,
    {
        let c = workers[i];
        proof {
            let next = workers@.take(i + 1);
            assert(next.drop_last() =~= workers@.take(i as int));
            assert(next.last() == c);
            lemma_sum_fits(next, commands_processed());
            lemma_sum_fits(next, bytes_in());
            lemma_sum_fits(next, bytes_out());
            lemma_sum_fits(next, active_connections());
            lemma_sum_fits(next, blocked_clients());
        }
        s.commands_processed = s.commands_processed + c.commands_processed as u128;
        s.bytes_in = s.bytes_in + c.bytes_in as u128;
        s.bytes_out = s.bytes_out + c.bytes_out as u128;
        s.active_connections = s.active_connections + c.active_connections as u128;
        s.blocked_clients = s.blocked_clients + c.blocked_clients as u128;
        i += 1;
    }
    assert(workers@.take(workers.len() as int) =~= workers@);
    s
}

/// Merging does not depend on how the workers are grouped: the sum over
/// two groups of workers taken together is the sum of the sums.
pub proof fn lemma_sum_of_groups(
    a: Seq<WorkerCounters>,
    b: Seq<WorkerCounters>,
    counter: spec_fn(WorkerCounters) -> u64,
)
    ensures
        sum_of(a + b, counter) == sum_of(a, counter) + sum_of(b, counter),
    decreases b.len(),
{
    if b.len() == 0 {
        assert(a + b =~= a);
    } else {
        assert((a + b).drop_last() =~= a + b.drop_last());
        assert((a + b).last() == b.last());
        lemma_sum_of_groups(a, b.drop_last(), counter);
    }
}

} // verus!
