//! The manager's books on its pool of workers: which worker gets the next
//! connection, which workers have missed their heartbeat, and where the
//! connections of a failed worker go.

use vstd::prelude::*;
use crate::client::{
    after_close_with, client_views, fresh_client, worker_failure, worker_failure_reply, Client,
    ClientView,
};
use crate::error_codes::ErrorKind;
use crate::server_options::ServerOptions;

verus! {

/// What the manager knows of one worker.
#[derive(Clone, Copy, Debug, PartialEq, Eq, Structural)]
pub struct WorkerRecord {
    pub id: u64,
    /// Whether the worker is healthy.
    pub alive: bool,
    /// How many connections the worker owns.
    pub connections: u64,
    /// When the worker last reported.
    pub last_heartbeat: u64,
}

/// One worker that was found dead.
#[derive(Clone, Copy, Debug, PartialEq, Eq)]
pub struct Restart {
    /// The worker that missed its heartbeat.
    pub failed: u64,
    /// How many connections it owned; each of them needs a new owner.
    pub orphaned: u64,
    /// The worker started in its place, if there was an id left for one.
    pub replacement: Option<u64>,
}

/// Whether a worker can take one more connection.
pub open spec fn available(r: WorkerRecord) -> bool {
    r.alive && r.connections < u64::MAX
}

/// Whether `a` is to be preferred to `b`, or is `b`: it owns fewer
/// connections, or as many and has the lower id.
pub open spec fn no_worse(a: WorkerRecord, b: WorkerRecord) -> bool {
    a.connections < b.connections || (a.connections == b.connections && a.id <= b.id)
}

/// Whether the worker at `i` is the one to take the next connection: it is
/// available, and no available worker is to be preferred to it.
pub open spec fn is_least_loaded(pool: Seq<WorkerRecord>, i: int) -> bool {
    &&& 0 <= i < pool.len()
    &&& available(pool[i])
    &&& forall|j: int| 0 <= j < pool.len() && available(#[trigger] pool[j]) ==> no_worse(pool[i], pool[j])
}

/// No worker can take a connection.
pub open spec fn none_available(pool: Seq<WorkerRecord>) -> bool {
    forall|i: int| 0 <= i < pool.len() ==> !available(#[trigger] pool[i])
}

/// No two workers have the same id.
pub open spec fn distinct_ids(pool: Seq<WorkerRecord>) -> bool {
    forall|i: int, j: int|
        0 <= i < j < pool.len() ==> (#[trigger] pool[i]).id != (#[trigger] pool[j]).id
}

/// Whether some worker of the pool has the id `id`.
pub open spec fn has_id(pool: Seq<WorkerRecord>, id: u64) -> bool {
    exists|i: int| 0 <= i < pool.len() && (#[trigger] pool[i]).id == id
}

/// The place of the worker that takes the next connection, if any can.
pub open spec fn choice(pool: Seq<WorkerRecord>) -> Option<int> {
    if exists|i: int| is_least_loaded(pool, i) {
        Some(choose|i: int| is_least_loaded(pool, i))
    } else {
        None
    }
}

/// The pool after the worker at `i` got one more connection.
pub open spec fn with_one_more(pool: Seq<WorkerRecord>, i: int) -> Seq<WorkerRecord> {
    pool.update(i, WorkerRecord { connections: (pool[i].connections + 1) as u64, ..pool[i] })
}

/// The pool after one connection was handed out, and the id of the worker
/// that got it.
pub open spec fn assigned(pool: Seq<WorkerRecord>) -> (Seq<WorkerRecord>, Option<u64>) {
    match choice(pool) {
        Some(i) => (with_one_more(pool, i), Some(pool[i].id)),
        None => (pool, None),
    }
}

/// The pool after `count` connections were handed out one after the
/// other, and for each of them the worker that got it, or `None` where no
/// worker could take it.
pub open spec fn placed(pool: Seq<WorkerRecord>, count: nat) -> (Seq<WorkerRecord>, Seq<Option<u64>>)
    decreases count,
{
    if count == 0 {
        (pool, Seq::empty())
    } else {
        let (before, targets) = placed(pool, (count - 1) as nat);
        let (after, target) = assigned(before);
        (after, targets.push(target))
    }
}

/// What became of the connections of a worker that failed.
pub struct Reassigned {
    /// The pool afterwards.
    pub pool: Seq<WorkerRecord>,
    /// The connections that have a new owner, each with the owner's id.
    pub moved: Seq<(u64, ClientView)>,
    /// The connections that were closed.
    pub closed: Seq<ClientView>,
}

/// What becomes of `orphans`, taken one after the other: a connection that
/// is closing already stays so; any other goes to the worker that is least
/// loaded at that moment, as it is, or is told of the failure and closed
/// where no worker can take it.
pub open spec fn reassigned(pool: Seq<WorkerRecord>, orphans: Seq<ClientView>) -> Reassigned
    decreases orphans.len(),
{
    if orphans.len() == 0 {
        Reassigned { pool, moved: Seq::empty(), closed: Seq::empty() }
    } else {
        let before = reassigned(pool, orphans.drop_last());
        let c = orphans.last();
        if c.state is Closing {
            Reassigned { closed: before.closed.push(c), ..before }
        } else {
            match assigned(before.pool) {
                (after, Some(worker)) => Reassigned {
                    pool: after,
                    moved: before.moved.push((worker, c)),
                    closed: before.closed,
                },
                (after, None) => Reassigned {
                    pool: after,
                    moved: before.moved,
                    closed: before.closed.push(after_close_with(c, worker_failure())),
                },
            }
        }
    }
}

/// The views of clients with their new owners.
pub open spec fn moved_views(moved: Seq<(u64, Client)>) -> Seq<(u64, ClientView)> {
    Seq::new(moved.len(), |i: int| (moved[i].0, moved[i].1@))
}

/// No connection of a failed worker is dropped: as many come out as went
/// in, each either with a new owner and exactly as it was, or closed.
pub proof fn lemma_reassigned_drops_nothing(pool: Seq<WorkerRecord>, orphans: Seq<ClientView>)
    ensures
        ({
            let r = reassigned(pool, orphans);
            &&& r.moved.len() + r.closed.len() == orphans.len()
            &&& r.pool.len() == pool.len()
            &&& forall|j: int|
                0 <= j < r.moved.len() ==> orphans.contains((#[trigger] r.moved[j]).1)
                    && !(r.moved[j].1.state is Closing) && has_id(r.pool, r.moved[j].0)
            &&& forall|j: int| 0 <= j < r.closed.len() ==> (#[trigger] r.closed[j]).state is Closing
        }),
    decreases orphans.len(),
{
    if orphans.len() > 0 {
        let front = orphans.drop_last();
        lemma_reassigned_drops_nothing(pool, front);
        let before = reassigned(pool, front);
        let r = reassigned(pool, orphans);
        let c = orphans.last();
        assert(orphans[orphans.len() - 1] == c);
        assert forall|j: int| 0 <= j < r.moved.len() implies orphans.contains(
            (#[trigger] r.moved[j]).1,
        ) && !(r.moved[j].1.state is Closing) && has_id(r.pool, r.moved[j].0) by {
            if j < before.moved.len() {
                assert(front.contains(before.moved[j].1));
                let k = choose|k: int| 0 <= k < front.len() && front[k] == before.moved[j].1;
                assert(orphans[k] == front[k]);
                assert(has_id(before.pool, before.moved[j].0));
                let w = choose|w: int|
                    0 <= w < before.pool.len() && (#[trigger] before.pool[w]).id
                        == before.moved[j].0;
                assert(r.pool[w].id == before.pool[w].id);
            } else {
                let p = choice(before.pool)->Some_0;
                assert(r.pool[p].id == before.pool[p].id);
            }
        }
    }
}

/// What became of the connections of a worker that failed.
pub struct Reassignment {
    /// The connections that have a new owner, each with the owner's id, to
    /// be handed to that worker as they are.
    pub moved: Vec<(u64, Client)>,
    /// The connections that were closed, to be written out and dropped.
    pub closed: Vec<Client>,
}

/// Whether a worker has gone without a heartbeat for longer than
/// `timeout` at `now`.
pub open spec fn missed(r: WorkerRecord, now: u64, timeout: u64) -> bool {
    r.alive && now - r.last_heartbeat > timeout
}

/// A worker that starts at `now` under the id `id`.
pub open spec fn fresh(id: u64, now: u64) -> WorkerRecord {
    WorkerRecord { id, alive: true, connections: 0, last_heartbeat: now }
}

/// What becomes of the place of a worker that is found dead at `now`, when
/// `next_id` is the next unused id: a new worker takes the place under that
/// id, or, where the ids have run out, the place stays dead. Either way
/// the connections of the dead worker are reported as orphaned.
pub open spec fn replaced(r: WorkerRecord, next_id: u64, now: u64) -> (WorkerRecord, Restart, u64) {
    if next_id < u64::MAX {
        (
            fresh(next_id, now),
            Restart { failed: r.id, orphaned: r.connections, replacement: Some(next_id) },
            (next_id + 1) as u64,
        )
    } else {
        (
            WorkerRecord { alive: false, connections: 0, ..r },
            Restart { failed: r.id, orphaned: r.connections, replacement: None },
            next_id,
        )
    }
}

/// The outcome of one round of supervision.
pub struct Supervised {
    /// The pool afterwards.
    pub pool: Seq<WorkerRecord>,
    /// The workers found dead, in the order of the pool.
    pub restarts: Seq<Restart>,
    /// The id that the next new worker gets.
    pub next_id: u64,
}

/// One round of supervision at `now`: every worker that missed its
/// heartbeat is marked dead and loses its connections, and a new worker
/// takes its place under the next unused id; where the ids have run out
/// the place stays dead.
pub open spec fn supervised(pool: Seq<WorkerRecord>, next_id: u64, now: u64, timeout: u64) -> Supervised
    decreases pool.len(),
{
    if pool.len() == 0 {
        Supervised { pool: Seq::empty(), restarts: Seq::empty(), next_id }
    } else {
        let front = supervised(pool.drop_last(), next_id, now, timeout);
        let r = pool.last();
        if !missed(r, now, timeout) {
            Supervised { pool: front.pool.push(r), ..front }
        } else {
            let (record, restart, next_id) = replaced(r, front.next_id, now);
            Supervised {
                pool: front.pool.push(record),
                restarts: front.restarts.push(restart),
                next_id,
            }
        }
    }
}

/// The pool that `count` workers start with at `now`.
pub open spec fn initial_pool(count: nat, now: u64) -> Seq<WorkerRecord> {
    Seq::new(count, |i: int| fresh(i as u64, now))
}

/// Of a well-formed pool at most one worker is the least loaded.
pub proof fn lemma_least_loaded_unique(pool: Seq<WorkerRecord>, i: int, j: int)
    requires
        distinct_ids(pool),
        is_least_loaded(pool, i),
        is_least_loaded(pool, j),
    ensures
        i == j,
{
    assert(no_worse(pool[i], pool[j]));
    assert(no_worse(pool[j], pool[i]));
    if i < j {
        assert(pool[i].id != pool[j].id);
    } else if j < i {
        assert(pool[j].id != pool[i].id);
    }
}

/// The manager's books on its pool of workers.
pub struct WorkerManager {
    records: Vec<WorkerRecord>,
    next_id: u64,
    next_conn: u64,
    heartbeat_timeout: u64,
    accepting: bool,
}

impl View for WorkerManager {
    type V = Seq<WorkerRecord>;

    closed spec fn view(&self) -> Seq<WorkerRecord> {
        self.records@
    }
}

impl WorkerManager {
    /// The id that the next new worker gets.
    pub closed spec fn spec_next_id(&self) -> u64 {
        self.next_id
    }

    /// How long a worker may go without a heartbeat.
    pub closed spec fn spec_heartbeat_timeout(&self) -> u64 {
        self.heartbeat_timeout
    }

    /// Whether new connections are taken.
    pub closed spec fn spec_accepting(&self) -> bool {
        self.accepting
    }

    /// The id that the next connection gets.
    pub closed spec fn spec_next_conn(&self) -> u64 {
        self.next_conn
    }

    /// The invariant of the books: no two workers share an id, and every id
    /// in use lies below the next one to be given out.
    pub open spec fn wf(&self) -> bool {
        &&& distinct_ids(self@)
        &&& forall|i: int| 0 <= i < self@.len() ==> (#[trigger] self@[i]).id < self.spec_next_id()
    }

    /// Opens the books for the workers that the options ask for on a host
    /// that runs `host_parallelism` threads in parallel. `bound` says of
    /// each worker, in order, whether it got hold of what it needs to run.
    /// Fails if there would be no worker, if `bound` does not speak of each
    /// worker, or if one of them did not bind.
    pub fn start(options: &ServerOptions, host_parallelism: usize, bound: &[bool], now: u64) -> (started:
        Result<WorkerManager, ErrorKind>)
        ensures
            ({
                let n = options.spec_worker_count(host_parallelism);
                let ready = n > 0 && bound@.len() == n && forall|i: int|
                    0 <= i < n ==> #[trigger] bound@[i];
                match started {
                    Ok(m) => ready && m.wf() && m@ == initial_pool(n as nat, now)
                        && m.spec_next_id() == n && m.spec_heartbeat_timeout()
                        == options.spec_heartbeat_timeout_ms() && m.spec_accepting()
                        && m.spec_next_conn() == 0,
                    Err(e) => !ready && e == ErrorKind::StartupError,
                }
            }),
    {
        let n = options.worker_count(host_parallelism);
        if n == 0 || bound.len() != n {
            return Err(ErrorKind::StartupError);
        }
        let mut records: Vec<WorkerRecord> = Vec::new();
        let mut i: usize = 0;
        while i < n
            invariant
                i <= n,
                bound@.len() == n,
                records@ == initial_pool(i as nat, now),
                forall|j: int| 0 <= j < i ==> #[trigger] bound@[j],
            decreases n - i,
        {
            if !bound[i] {
                return Err(ErrorKind::StartupError);
            }
            records.push(WorkerRecord { id: i as u64, alive: true, connections: 0, last_heartbeat: now });
            assert(records@ =~= initial_pool((i + 1) as nat, now));
            i += 1;
        }
        Ok(
            WorkerManager {
                records,
                next_id: n as u64,
                next_conn: 0,
                heartbeat_timeout: options.heartbeat_timeout_ms(),
                accepting: true,
            },
        )
    }

    /// The place in the pool of the worker that is to take the next
    /// connection: the available worker that owns the fewest, and of
    /// several such the one with the lowest id. A worker that is not
    /// healthy is never chosen.
    pub fn select_worker(&self) -> (target: Option<usize>)
        ensures
            match target {
                Some(i) => is_least_loaded(self@, i as int),
                None => none_available(self@),
            },
    {
        let mut best: Option<usize> = None;
        let mut i: usize = 0;
        while i < self.records.len()
            invariant
                i <= self.records.len(),
                match best {
                    Some(b) => b < i && available(self@[b as int]) && forall|j: int|
                        0 <= j < i && available(#[trigger] self@[j]) ==> no_worse(
                            self@[b as int],
                            self@[j],
                        ),
                    None => forall|j: int| 0 <= j < i ==> !available(#[trigger] self@[j]),
                },
            decreases self.records.len() - i,
        {
            let r = self.records[i];
            if r.alive && r.connections < u64::MAX {
                match best {
                    None => {
                        best = Some(i);
                    },
                    Some(b) => {
                        let cur = self.records[b];
                        if r.connections < cur.connections || (r.connections == cur.connections
                            && r.id < cur.id) {
                            best = Some(i);
                        }
                    },
                }
            }
            i += 1;
        }
        best
    }

    /// Hands out one connection: the least loaded worker gets it and owns
    /// one more from then on. Returns the worker's id, or `None` if no
    /// worker can take the connection or none is taken any more.
    pub fn assign(&mut self) -> (target: Option<u64>)
        requires
            old(self).wf(),
        ensures
            final(self).wf(),
            final(self).spec_next_id() == old(self).spec_next_id(),
            final(self).spec_heartbeat_timeout() == old(self).spec_heartbeat_timeout(),
            final(self).spec_accepting() == old(self).spec_accepting(),
            final(self).spec_next_conn() == old(self).spec_next_conn(),
            old(self).spec_accepting() ==> (final(self)@, target) == assigned(old(self)@),
            !old(self).spec_accepting() ==> final(self)@ == old(self)@ && target is None,
    {
        if !self.accepting {
            return None;
        }
        self.place_one()
    }

    fn place_one(&mut self) -> (target: Option<u64>)
        requires
            old(self).wf(),
        ensures
            final(self).wf(),
            final(self).spec_next_id() == old(self).spec_next_id(),
            final(self).spec_heartbeat_timeout() == old(self).spec_heartbeat_timeout(),
            final(self).spec_accepting() == old(self).spec_accepting(),
            final(self).spec_next_conn() == old(self).spec_next_conn(),
            (final(self)@, target) == assigned(old(self)@),
    {
        match self.select_worker() {
            None => {
                assert(choice(self@) is None) by {
                    if exists|i: int| is_least_loaded(self@, i) {
                        let i = choose|i: int| is_least_loaded(self@, i);
                        assert(available(self@[i]));
                    }
                }
                None
            },
            Some(i) => {
                proof {
                    let c = choose|c: int| is_least_loaded(self@, c);
                    lemma_least_loaded_unique(self@, i as int, c);
                }
                let r = self.records[i];
                self.records.set(i, WorkerRecord { connections: r.connections + 1, ..r });
                assert(self@ =~= with_one_more(old(self)@, i as int));
                Some(r.id)
            },
        }
    }

    /// Takes in a connection that was accepted at `now`: it gets the next
    /// unused id and goes to the least loaded worker, which owns one more
    /// from then on. Returns the connection, to be handed to that worker,
    /// or `None` if no connection is taken any more, if no worker can take
    /// it or if the ids have run out; then nothing changes and the socket
    /// is to be closed.
    pub fn accept(&mut self, now: u64) -> (client: Option<Client>)
        requires
            old(self).wf(),
        ensures
            final(self).wf(),
            final(self).spec_next_id() == old(self).spec_next_id(),
            final(self).spec_heartbeat_timeout() == old(self).spec_heartbeat_timeout(),
            final(self).spec_accepting() == old(self).spec_accepting(),
            match client {
                Some(c) => {
                    &&& old(self).spec_accepting()
                    &&& old(self).spec_next_conn() < u64::MAX
                    &&& c.wf()
                    &&& c@ == fresh_client(old(self).spec_next_conn(), c@.worker, now)
                    &&& (final(self)@, Some(c@.worker)) == assigned(old(self)@)
                    &&& final(self).spec_next_conn() == old(self).spec_next_conn() + 1
                },
                None => {
                    &&& !old(self).spec_accepting() || old(self).spec_next_conn() == u64::MAX
                        || choice(old(self)@) is None
                    &&& final(self)@ == old(self)@
                    &&& final(self).spec_next_conn() == old(self).spec_next_conn()
                },
            },
    {
        if !self.accepting || self.next_conn == u64::MAX {
            return None;
        }
        match self.place_one() {
            None => None,
            Some(worker) => {
                let id = self.next_conn;
                self.next_conn = id + 1;
                Some(Client::new(id, worker, now))
            },
        }
    }

    /// Finds new owners for the connections of a worker that failed, one
    /// after the other, each going to the worker that is least loaded at
    /// that moment. A connection for which there is no worker is told so
    /// and closed; one that was closing already stays as it is. No
    /// connection is dropped: each is returned, either with its new owner,
    /// as it was, or among the closed.
    pub fn reassign(&mut self, orphans: Vec<Client>) -> (outcome: Reassignment)
        requires
            old(self).wf(),
            forall|i: int| 0 <= i < orphans@.len() ==> (#[trigger] orphans@[i]).wf(),
        ensures
            final(self).wf(),
            final(self).spec_next_id() == old(self).spec_next_id(),
            final(self).spec_heartbeat_timeout() == old(self).spec_heartbeat_timeout(),
            final(self).spec_accepting() == old(self).spec_accepting(),
            final(self).spec_next_conn() == old(self).spec_next_conn(),
            ({
                let r = reassigned(old(self)@, client_views(orphans@));
                &&& final(self)@ == r.pool
                &&& moved_views(outcome.moved@) == r.moved
                &&& client_views(outcome.closed@) == r.closed
            }),
            forall|i: int| 0 <= i < outcome.moved@.len() ==> (#[trigger] outcome.moved@[i]).1.wf(),
            forall|i: int| 0 <= i < outcome.closed@.len() ==> (#[trigger] outcome.closed@[i]).wf(),
    {
        let ghost all = client_views(orphans@);
        let mut moved: Vec<(u64, Client)> = Vec::new();
        let mut closed: Vec<Client> = Vec::new();
        proof {
            assert(all.take(0) =~= Seq::<ClientView>::empty());
            assert(moved_views(moved@) =~= Seq::<(u64, ClientView)>::empty());
            assert(client_views(closed@) =~= Seq::<ClientView>::empty());
        }
        for client in it: orphans
            invariant
                client_views(it.seq()) == all,
                forall|i: int| 0 <= i < it.seq().len() ==> (#[trigger] it.seq()[i]).wf(),
                self.wf(),
                self.spec_next_id() == old(self).spec_next_id(),
                self.spec_heartbeat_timeout() == old(self).spec_heartbeat_timeout(),
                self.spec_accepting() == old(self).spec_accepting(),
                self.spec_next_conn() == old(self).spec_next_conn(),
                ({
                    let r = reassigned(old(self)@, all.take(it.index() as int));
                    &&& self@ == r.pool
                    &&& moved_views(moved@) == r.moved
                    &&& client_views(closed@) == r.closed
                }),
                forall|i: int| 0 <= i < moved@.len() ==> (#[trigger] moved@[i]).1.wf(),
                forall|i: int| 0 <= i < closed@.len() ==> (#[trigger] closed@[i]).wf(),
        {
            let ghost i = it.index() as int;
            let ghost c = all[i];
            let ghost was_moved = moved_views(moved@);
            let ghost was_closed = client_views(closed@);
            proof {
                assert(client@ == c);
                assert(it.seq()[i].wf());
                assert(all.take(i + 1).drop_last() =~= all.take(i));
                assert(all.take(i + 1).last() == c);
            }
            if client.state().is_closing() {
                closed.push(client);
                assert(client_views(closed@) =~= was_closed.push(c));
            } else {
                match self.place_one() {
                    Some(worker) => {
                        moved.push((worker, client));
                        assert(moved_views(moved@) =~= was_moved.push((worker, c)));
                    },
                    None => {
                        let mut client = client;
                        client.close_with(&worker_failure_reply());
                        closed.push(client);
                        assert(client_views(closed@) =~= was_closed.push(
                            after_close_with(c, worker_failure()),
                        ));
                    },
                }
            }
        }
        assert(all.take(all.len() as int) =~= all);
        Reassignment { moved, closed }
    }

    /// Finds new owners for the `count` connections of a worker that
    /// failed, one after the other, each going to the worker that is least
    /// loaded at that moment. For each connection the result names its new
    /// owner, or holds `None` where no worker could take it, and the
    /// connection is to be closed with an error reply.
    pub fn place_orphans(&mut self, count: usize) -> (targets: Vec<Option<u64>>)
        requires
            old(self).wf(),
        ensures
            final(self).wf(),
            final(self).spec_next_id() == old(self).spec_next_id(),
            final(self).spec_heartbeat_timeout() == old(self).spec_heartbeat_timeout(),
            final(self).spec_accepting() == old(self).spec_accepting(),
            final(self).spec_next_conn() == old(self).spec_next_conn(),
            (final(self)@, targets@) == placed(old(self)@, count as nat),
            targets@.len() == count,
    {
        let mut targets: Vec<Option<u64>> = Vec::new();
        let mut k: usize = 0;
        while k < count
            invariant
                k <= count,
                self.wf(),
                self.spec_next_id() == old(self).spec_next_id(),
                self.spec_heartbeat_timeout() == old(self).spec_heartbeat_timeout(),
                self.spec_accepting() == old(self).spec_accepting(),
                self.spec_next_conn() == old(self).spec_next_conn(),
                (self@, targets@) == placed(old(self)@, k as nat),
                targets@.len() == k,
            decreases count - k,
        {
            let target = self.place_one();
            targets.push(target);
            k += 1;
        }
        targets
    }

    /// Notes that a connection of the worker `worker` was closed. Returns
    /// whether the worker is known and owned a connection.
    pub fn release(&mut self, worker: u64) -> (known: bool)
        requires
            old(self).wf(),
        ensures
            final(self).wf(),
            final(self).spec_next_id() == old(self).spec_next_id(),
            final(self).spec_heartbeat_timeout() == old(self).spec_heartbeat_timeout(),
            final(self).spec_accepting() == old(self).spec_accepting(),
            final(self).spec_next_conn() == old(self).spec_next_conn(),
            known == exists|i: int|
                0 <= i < old(self)@.len() && (#[trigger] old(self)@[i]).id == worker && old(
                    self,
                )@[i].connections > 0,
            known ==> exists|i: int|
                0 <= i < old(self)@.len() && (#[trigger] old(self)@[i]).id == worker && final(self)@
                    == old(self)@.update(
                    i,
                    WorkerRecord {
                        connections: (old(self)@[i].connections - 1) as u64,
                        ..old(self)@[i]
                    },
                ),
            !known ==> final(self)@ == old(self)@,
    {
        match self.find(worker) {
            None => false,
            Some(i) => {
                let r = self.records[i];
                if r.connections == 0 {
                    assert forall|j: int|
                        0 <= j < self@.len() && (#[trigger] self@[j]).id == worker implies self@[j].connections
                        == 0 by {
                        lemma_same_id(self@, i as int, j);
                    }
                    false
                } else {
                    self.records.set(i, WorkerRecord { connections: r.connections - 1, ..r });
                    true
                }
            },
        }
    }

    /// Notes that the worker `worker` reported at `now`. Returns whether
    /// the worker is known and healthy; the report of any other is
    /// ignored.
    pub fn heartbeat(&mut self, worker: u64, now: u64) -> (known: bool)
        requires
            old(self).wf(),
        ensures
            final(self).wf(),
            final(self).spec_next_id() == old(self).spec_next_id(),
            final(self).spec_heartbeat_timeout() == old(self).spec_heartbeat_timeout(),
            final(self).spec_accepting() == old(self).spec_accepting(),
            final(self).spec_next_conn() == old(self).spec_next_conn(),
            known == exists|i: int|
                0 <= i < old(self)@.len() && (#[trigger] old(self)@[i]).id == worker && old(
                    self,
                )@[i].alive,
            known ==> exists|i: int|
                0 <= i < old(self)@.len() && (#[trigger] old(self)@[i]).id == worker && final(self)@
                    == old(self)@.update(i, WorkerRecord { last_heartbeat: now, ..old(self)@[i] }),
            !known ==> final(self)@ == old(self)@,
    {
        match self.find(worker) {
            None => false,
            Some(i) => {
                let r = self.records[i];
                if !r.alive {
                    assert forall|j: int|
                        0 <= j < self@.len() && (#[trigger] self@[j]).id == worker implies !self@[j].alive by {
                        lemma_same_id(self@, i as int, j);
                    }
                    false
                } else {
                    self.records.set(i, WorkerRecord { last_heartbeat: now, ..r });
                    true
                }
            },
        }
    }

    fn find(&self, worker: u64) -> (at: Option<usize>)
        ensures
            match at {
                Some(i) => i < self@.len() && self@[i as int].id == worker,
                None => !has_id(self@, worker),
            },
    {
        let mut i: usize = 0;
        while i < self.records.len()
            invariant
                i <= self.records.len(),
                forall|j: int| 0 <= j < i ==> (#[trigger] self@[j]).id != worker,
            decreases self.records.len() - i,
        {
            if self.records[i].id == worker {
                return Some(i);
            }
            i += 1;
        }
        None
    }

    /// One round of supervision at `now`. Every worker that has gone
    /// without a heartbeat for longer than the configured time is marked
    /// dead, and a new worker with an unused id takes its place. The
    /// result lists the dead in the order of the pool, each with the
    /// number of connections that it leaves behind.
    pub fn supervise(&mut self, now: u64) -> (restarts: Vec<Restart>)
        requires
            old(self).wf(),
        ensures
            final(self).wf(),
            final(self).spec_heartbeat_timeout() == old(self).spec_heartbeat_timeout(),
            final(self).spec_accepting() == old(self).spec_accepting(),
            final(self).spec_next_conn() == old(self).spec_next_conn(),
            ({
                let s = supervised(
                    old(self)@,
                    old(self).spec_next_id(),
                    now,
                    old(self).spec_heartbeat_timeout(),
                );
                final(self)@ == s.pool && restarts@ == s.restarts && final(self).spec_next_id()
                    == s.next_id
            }),
            final(self)@.len() == old(self)@.len(),
            forall|i: int|
                0 <= i < old(self)@.len() ==> !missed(
                    #[trigger] final(self)@[i],
                    now,
                    old(self).spec_heartbeat_timeout(),
                ),
            forall|i: int|
                0 <= i < old(self)@.len() && !missed(
                    #[trigger] old(self)@[i],
                    now,
                    old(self).spec_heartbeat_timeout(),
                ) ==> final(self)@[i] == old(self)@[i],
    {
        let ghost pool = self@;
        let ghost first_id = self.next_id;
        let timeout = self.heartbeat_timeout;
        let mut restarts: Vec<Restart> = Vec::new();
        let mut i: usize = 0;
        assert(pool.take(0) =~= Seq::<WorkerRecord>::empty());
        while i < self.records.len()
            invariant
                i <= pool.len(),
                self@.len() == pool.len(),
                pool == old(self)@,
                timeout == old(self).spec_heartbeat_timeout(),
                self.spec_heartbeat_timeout() == timeout,
                self.spec_accepting() == old(self).spec_accepting(),
                self.spec_next_conn() == old(self).spec_next_conn(),
                distinct_ids(pool),
                forall|j: int| 0 <= j < pool.len() ==> (#[trigger] pool[j]).id < first_id,
                first_id <= self.spec_next_id(),
                forall|j: int| i <= j < pool.len() ==> self@[j] == pool[j],
                forall|j: int| 0 <= j < i ==> (#[trigger] self@[j]).id < self.spec_next_id(),
                forall|j: int|
                    0 <= j < i ==> ((#[trigger] self@[j]).id >= first_id || self@[j].id
                        == pool[j].id),
                forall|a: int, b: int|
                    0 <= a < b < i && (#[trigger] self@[a]).id >= first_id && (
                    #[trigger] self@[b]).id >= first_id ==> self@[a].id != self@[b].id,
                forall|j: int| 0 <= j < i ==> !missed(#[trigger] self@[j], now, timeout),
                forall|j: int|
                    0 <= j < i && !missed(#[trigger] pool[j], now, timeout) ==> self@[j]
                        == pool[j],
                ({
                    let s = supervised(pool.take(i as int), first_id, now, timeout);
                    self@.take(i as int) == s.pool && restarts@ == s.restarts
                        && self.spec_next_id() == s.next_id
                }),
            decreases pool.len() - i,
        {
            let r = self.records[i];
            proof {
                assert(pool.take(i + 1).drop_last() =~= pool.take(i as int));
                assert(pool.take(i + 1).last() == r);
            }
            let ghost before = self@;
            if r.alive && now > r.last_heartbeat && now - r.last_heartbeat > timeout {
                let restart = self.replace_at(i, now);
                restarts.push(restart);
            }
            assert(self@.take(i + 1) =~= before.take(i as int).push(self@[i as int]));
            i += 1;
        }
        proof {
            assert(pool.take(pool.len() as int) =~= pool);
            assert(self@.take(pool.len() as int) =~= self@);
            assert(distinct_ids(self@)) by {
                assert forall|a: int, b: int| 0 <= a < b < self@.len() implies (
                #[trigger] self@[a]).id != (#[trigger] self@[b]).id by {
                    if self@[a].id < first_id && self@[b].id < first_id {
                        assert(pool[a].id != pool[b].id);
                    } else if self@[a].id >= first_id && self@[b].id >= first_id {
                    } else if self@[a].id < first_id {
                        assert(self@[a].id == pool[a].id);
                    } else {
                        assert(self@[b].id == pool[b].id);
                    }
                }
            }
        }
        restarts
    }

    fn replace_at(&mut self, i: usize, now: u64) -> (restart: Restart)
        requires
            i < old(self)@.len(),
        ensures
            final(self).spec_heartbeat_timeout() == old(self).spec_heartbeat_timeout(),
            final(self).spec_accepting() == old(self).spec_accepting(),
            final(self).spec_next_conn() == old(self).spec_next_conn(),
            ({
                let (record, report, next_id) = replaced(
                    old(self)@[i as int],
                    old(self).spec_next_id(),
                    now,
                );
                final(self)@ == old(self)@.update(i as int, record) && restart == report
                    && final(self).spec_next_id() == next_id
            }),
    {
        let r = self.records[i];
        if self.next_id < u64::MAX {
            let id = self.next_id;
            self.records.set(i, WorkerRecord { id, alive: true, connections: 0, last_heartbeat: now });
            self.next_id = id + 1;
            Restart { failed: r.id, orphaned: r.connections, replacement: Some(id) }
        } else {
            self.records.set(i, WorkerRecord { alive: false, connections: 0, ..r });
            Restart { failed: r.id, orphaned: r.connections, replacement: None }
        }
    }

    /// Notes at `now` that the worker `worker` has failed, without waiting
    /// for it to miss a heartbeat: it is dealt with as a worker that
    /// supervision finds dead. Returns what became of it, or `None` if no
    /// healthy worker has that id, and then nothing changes.
    pub fn report_failure(&mut self, worker: u64, now: u64) -> (restart: Option<Restart>)
        requires
            old(self).wf(),
        ensures
            final(self).wf(),
            final(self).spec_heartbeat_timeout() == old(self).spec_heartbeat_timeout(),
            final(self).spec_accepting() == old(self).spec_accepting(),
            final(self).spec_next_conn() == old(self).spec_next_conn(),
            restart is Some == exists|i: int|
                0 <= i < old(self)@.len() && (#[trigger] old(self)@[i]).id == worker && old(
                    self,
                )@[i].alive,
            restart is None ==> final(self)@ == old(self)@ && final(self).spec_next_id() == old(
                self,
            ).spec_next_id(),
            restart matches Some(report) ==> exists|i: int|
                0 <= i < old(self)@.len() && (#[trigger] old(self)@[i]).id == worker && ({
                    let (record, expected, next_id) = replaced(
                        old(self)@[i],
                        old(self).spec_next_id(),
                        now,
                    );
                    final(self)@ == old(self)@.update(i, record) && report == expected
                        && final(self).spec_next_id() == next_id
                }),
    {
        match self.find(worker) {
            None => None,
            Some(i) => {
                if !self.records[i].alive {
                    assert forall|j: int|
                        0 <= j < self@.len() && (#[trigger] self@[j]).id == worker implies !self@[j].alive by {
                        lemma_same_id(self@, i as int, j);
                    }
                    return None;
                }
                let restart = self.replace_at(i, now);
                proof {
                    assert forall|a: int, b: int| 0 <= a < b < self@.len() implies (
                    #[trigger] self@[a]).id != (#[trigger] self@[b]).id by {
                        assert(old(self)@[a].id != old(self)@[b].id);
                        assert(old(self)@[a].id < old(self).spec_next_id());
                        assert(old(self)@[b].id < old(self).spec_next_id());
                    }
                    assert forall|a: int| 0 <= a < self@.len() implies (#[trigger] self@[a]).id
                        < self.spec_next_id() by {
                        assert(old(self)@[a].id < old(self).spec_next_id());
                    }
                }
                Some(restart)
            },
        }
    }

    /// Stops handing out connections, for good.
    pub fn shutdown(&mut self)
        ensures
            final(self)@ == old(self)@,
            final(self).spec_next_id() == old(self).spec_next_id(),
            final(self).spec_heartbeat_timeout() == old(self).spec_heartbeat_timeout(),
            final(self).spec_next_conn() == old(self).spec_next_conn(),
            !final(self).spec_accepting(),
    {
        self.accepting = false;
    }

    /// The workers, in the order of the pool.
    pub fn records(&self) -> (pool: &Vec<WorkerRecord>)
        ensures
            pool@ == self@,
    {
        &self.records
    }
}

proof fn lemma_same_id(pool: Seq<WorkerRecord>, i: int, j: int)
    requires
        distinct_ids(pool),
        0 <= i < pool.len(),
        0 <= j < pool.len(),
        pool[i].id == pool[j].id,
    ensures
        i == j,
{
    if i < j {
        assert(pool[i].id != pool[j].id);
    } else if j < i {
        assert(pool[j].id != pool[i].id);
    }
}

} // verus!
