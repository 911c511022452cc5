//! A worker's part in the event loop: what each event does to the
//! connections that the worker owns, to the registry of blocked clients,
//! and to the worker's counters. The loop itself, which waits for events
//! and performs what is decided here, is the caller's.

use vstd::prelude::*;
use crate::client::{
    after_block, after_disconnect, after_failure, after_poll, after_receive, after_reply,
    after_time_out, after_wake, after_written, client_views, client_wf, dropped_of, poll_of,
    times_out, Client, ClientView, Poll,
};
use crate::error_codes::ErrorKind;
use crate::client_state::{on_shutdown, shutdown_action, ShutdownAction};
use crate::codec::Reply;
use crate::telemetry::{capped, WorkerCounters};
use crate::watchers::{
    moved, of_conn, registered_on, without, without_each, ConnectionRef, Waiter,
    WatcherRegistry,
};

verus! {

/// A worker as a value.
pub struct WorkerView {
    pub id: u64,
    /// The connections that the worker owns, in the order in which it got
    /// them.
    pub clients: Seq<ClientView>,
    /// Commands answered so far.
    pub commands_processed: u64,
    /// Bytes read from clients so far.
    pub bytes_in: u64,
    /// Bytes queued for clients so far.
    pub bytes_out: u64,
}

/// Whether a connection with the id `conn` is among `clients`.
pub open spec fn owns(clients: Seq<ClientView>, conn: u64) -> bool {
    exists|i: int| 0 <= i < clients.len() && (#[trigger] clients[i]).id == conn
}

/// The place of the connection with the id `conn` among `clients`.
pub open spec fn place(clients: Seq<ClientView>, conn: u64) -> int {
    choose|i: int| 0 <= i < clients.len() && (#[trigger] clients[i]).id == conn
}

/// No two of `clients` have the same id.
pub open spec fn distinct_clients(clients: Seq<ClientView>) -> bool {
    forall|i: int, j: int|
        0 <= i < j < clients.len() ==> (#[trigger] clients[i]).id != (#[trigger] clients[j]).id
}

/// What holds of a worker at all times: it is the owner of each of its
/// connections, each of them is as a client has to be, and no two of them
/// have the same id.
pub open spec fn worker_wf(v: WorkerView) -> bool {
    &&& distinct_clients(v.clients)
    &&& forall|i: int|
        0 <= i < v.clients.len() ==> client_wf(#[trigger] v.clients[i]) && v.clients[i].worker
            == v.id
}

/// How many of `clients` are blocked.
pub open spec fn count_blocked(clients: Seq<ClientView>) -> nat
    decreases clients.len(),
{
    if clients.len() == 0 {
        0
    } else {
        count_blocked(clients.drop_last()) + if clients.last().state is Blocked {
            1nat
        } else {
            0nat
        }
    }
}

/// A worker after the connection at `i` became `c`: the counters grow by
/// what the connection has read, queued and answered since.
pub open spec fn stepped(v: WorkerView, i: int, c: ClientView) -> WorkerView {
    WorkerView {
        clients: v.clients.update(i, c),
        commands_processed: capped(v.commands_processed, c.answered - v.clients[i].answered),
        bytes_in: capped(v.bytes_in, c.read.len() - v.clients[i].read.len()),
        bytes_out: capped(v.bytes_out, c.written.len() - v.clients[i].written.len()),
        ..v
    }
}

/// Holds of the clients whose command may finish while the worker shuts
/// down.
pub open spec fn finishing(grace_over: bool) -> spec_fn(ClientView) -> bool {
    |c: ClientView| on_shutdown(c.state, grace_over) == ShutdownAction::Finish
}

/// Holds of the clients that are closed when the worker shuts down.
pub open spec fn stopping(grace_over: bool) -> spec_fn(ClientView) -> bool {
    |c: ClientView| on_shutdown(c.state, grace_over) != ShutdownAction::Finish
}

/// The ids of clients.
pub open spec fn ids_of(clients: Seq<ClientView>) -> Seq<u64> {
    Seq::new(clients.len(), |i: int| clients[i].id)
}

/// The waiter that stands for the connection `conn` of the worker
/// `worker` in the registry.
pub open spec fn waiter_for(worker: u64, conn: u64, now: u64, deadline: Option<u64>) -> Waiter {
    Waiter { worker, conn, registered_at: now, deadline }
}

/// One worker.
pub struct Worker {
    id: u64,
    clients: Vec<Client>,
    tally: WorkerCounters,
}

impl View for Worker {
    type V = WorkerView;

    closed spec fn view(&self) -> WorkerView {
        WorkerView {
            id: self.id,
            clients: Seq::new(self.clients@.len(), |i: int| self.clients@[i]@),
            commands_processed: self.tally.commands_processed,
            bytes_in: self.tally.bytes_in,
            bytes_out: self.tally.bytes_out,
        }
    }
}

proof fn lemma_place(clients: Seq<ClientView>, i: int)
    requires
        distinct_clients(clients),
        0 <= i < clients.len(),
    ensures
        owns(clients, clients[i].id),
        place(clients, clients[i].id) == i,
{
    let p = place(clients, clients[i].id);
    if p < i {
        assert(clients[p].id != clients[i].id);
    } else if i < p {
        assert(clients[i].id != clients[p].id);
    }
}

impl Worker {
    /// What holds of a worker at all times.
    pub open spec fn wf(&self) -> bool {
        worker_wf(self@)
    }

    /// A worker that owns nothing yet.
    pub fn new(id: u64) -> (w: Worker)
        ensures
            w.wf(),
            w@ == (WorkerView {
                id,
                clients: Seq::empty(),
                commands_processed: 0,
                bytes_in: 0,
                bytes_out: 0,
            }),
    {
        let w = Worker { id, clients: Vec::new(), tally: WorkerCounters::new() };
        assert(w@.clients =~= Seq::<ClientView>::empty());
        w
    }

    /// The worker's id.
    pub fn id(&self) -> (id: u64)
        ensures
            id == self@.id,
    {
        self.id
    }

    /// How many connections the worker owns.
    pub fn connections(&self) -> (n: usize)
        ensures
            n == self@.clients.len(),
    {
        self.clients.len()
    }

    fn find(&self, conn: u64) -> (at: Option<usize>)
        requires
            self.wf(),
        ensures
            match at {
                Some(i) => owns(self@.clients, conn) && i as int == place(self@.clients, conn)
                    && i < self.clients@.len(),
                None => !owns(self@.clients, conn),
            },
    {
        let mut i: usize = 0;
        while i < self.clients.len()
            invariant
                self.wf(),
                i <= self.clients.len(),
                forall|j: int| 0 <= j < i ==> (#[trigger] self@.clients[j]).id != conn,
            decreases self.clients.len() - i,
        {
            if self.clients[i].id() == conn {
                proof {
                    assert(self@.clients[i as int].id == conn);
                    lemma_place(self@.clients, i as int);
                }
                return Some(i);
            }
            i += 1;
        }
        None
    }

    /// The connection with the id `conn`, if the worker owns it.
    pub fn client(&self, conn: u64) -> (c: Option<&Client>)
        requires
            self.wf(),
        ensures
            match c {
                Some(c) => owns(self@.clients, conn) && c@ == self@.clients[place(
                    self@.clients,
                    conn,
                )],
                None => !owns(self@.clients, conn),
            },
    {
        match self.find(conn) {
            Some(i) => Some(&self.clients[i]),
            None => None,
        }
    }

    /// Takes over a connection, from the manager or from another worker,
    /// as it is: with its buffers, its state and the command it may be
    /// waiting with. Where the connection waits on a resource, its wake-up
    /// goes to this worker from now on. A connection that is closing, or
    /// whose id the worker knows already, is handed back, and nothing
    /// changes.
    pub fn adopt(&mut self, registry: &mut WatcherRegistry, client: Client) -> (refused: Option<
        Client,
    >)
        requires
            old(self).wf(),
            old(registry).wf(),
            client.wf(),
        ensures
            final(self).wf(),
            final(registry).wf(),
            match refused {
                Some(c) => c == client && final(self)@ == old(self)@ && final(registry)@ == old(
                    registry,
                )@ && (client@.state is Closing || owns(old(self)@.clients, client@.id)),
                None => !(client@.state is Closing) && !owns(old(self)@.clients, client@.id)
                    && final(self)@ == (WorkerView {
                    clients: old(self)@.clients.push(
                        ClientView { worker: old(self)@.id, ..client@ },
                    ),
                    ..old(self)@
                }) && final(registry)@ == moved(old(registry)@, client@.id, old(self)@.id),
            },
    {
        if client.state().is_closing() {
            return Some(client);
        }
        if self.find(client.id()).is_some() {
            return Some(client);
        }
        let mut client = client;
        client.set_worker(self.id);
        registry.reassign(client.id(), self.id);
        self.clients.push(client);
        proof {
            let added = ClientView { worker: old(self)@.id, ..client@ };
            assert(self@.clients =~= old(self)@.clients.push(added));
            assert forall|i: int, j: int| 0 <= i < j < self@.clients.len() implies (
            #[trigger] self@.clients[i]).id != (#[trigger] self@.clients[j]).id by {
                if j == old(self)@.clients.len() {
                    assert(old(self)@.clients[i].id != client@.id);
                } else {
                    assert(old(self)@.clients[i].id != old(self)@.clients[j].id);
                }
            }
        }
        None
    }

    fn count(&mut self, read: usize, queued: usize, answered: bool)
        ensures
            final(self).id == old(self).id,
            final(self).clients == old(self).clients,
            final(self).tally.bytes_in == capped(old(self).tally.bytes_in, read as int),
            final(self).tally.bytes_out == capped(old(self).tally.bytes_out, queued as int),
            final(self).tally.commands_processed == capped(
                old(self).tally.commands_processed,
                if answered {
                    1int
                } else {
                    0int
                },
            ),
    {
        self.tally.record_read(read);
        self.tally.record_write(queued);
        if answered {
            self.tally.record_command();
        }
    }

    /// Bytes were read from the connection `conn` at `now`: they go into
    /// its read buffer, and its next command is looked for, where a frame
    /// may have `max_frame` bytes at most. Returns what came of that, or
    /// `None` if the worker does not own the connection. On `Ready` the
    /// connection's command is to be run; on `Refused` the client has been
    /// told and the connection is to be closed once its queue is written.
    pub fn on_readable(&mut self, conn: u64, bytes: &[u8], now: u64, max_frame: usize) -> (poll:
        Option<Poll>)
        requires
            old(self).wf(),
        ensures
            final(self).wf(),
            !owns(old(self)@.clients, conn) ==> poll is None && final(self)@ == old(self)@,
            owns(old(self)@.clients, conn) ==> ({
                let i = place(old(self)@.clients, conn);
                let c = after_receive(old(self)@.clients[i], bytes@, now);
                &&& poll == Some(poll_of(c, max_frame as nat))
                &&& final(self)@ == stepped(old(self)@, i, after_poll(c, max_frame as nat))
            }),
    {
        match self.find(conn) {
            None => None,
            Some(i) => {
                let client = &mut self.clients[i];
                let queued_before = client.pending_output().len();
                let taken = client.receive(bytes, now);
                let poll = client.next_command(max_frame);
                let queued = client.pending_output().len() - queued_before;
                let read: usize = if taken {
                    bytes.len()
                } else {
                    0
                };
                self.count(read, queued, false);
                proof {
                    let c = after_receive(old(self)@.clients[i as int], bytes@, now);
                    let next = stepped(old(self)@, i as int, after_poll(c, max_frame as nat));
                    assert(self@.clients =~= next.clients);
                    lemma_update_keeps_wf(old(self)@, i as int, after_poll(c, max_frame as nat));
                }
                Some(poll)
            },
        }
    }

    /// The command of the connection `conn` was run and gave `reply`: the
    /// reply is queued and the connection goes on to its next command.
    /// Returns whether the connection is the worker's and was running a
    /// command; if not, nothing changes.
    pub fn on_reply(&mut self, conn: u64, reply: &Reply) -> (done: bool)
        requires
            old(self).wf(),
        ensures
            final(self).wf(),
            done == (owns(old(self)@.clients, conn) && old(self)@.clients[place(
                old(self)@.clients,
                conn,
            )].state is Executing),
            !owns(old(self)@.clients, conn) ==> final(self)@ == old(self)@,
            owns(old(self)@.clients, conn) ==> ({
                let i = place(old(self)@.clients, conn);
                final(self)@ == stepped(old(self)@, i, after_reply(old(self)@.clients[i], reply@))
            }),
    {
        match self.find(conn) {
            None => false,
            Some(i) => {
                let client = &mut self.clients[i];
                let queued_before = client.pending_output().len();
                let done = client.complete(reply);
                let queued = client.pending_output().len() - queued_before;
                self.count(0, queued, done);
                proof {
                    let c = after_reply(old(self)@.clients[i as int], reply@);
                    assert(self@.clients =~= stepped(old(self)@, i as int, c).clients);
                    lemma_update_keeps_wf(old(self)@, i as int, c);
                }
                done
            },
        }
    }

    /// The command of the connection `conn` failed with an error of the
    /// kind `kind`: the client is told `message`; after a protocol error
    /// the connection is closed, after any other it goes on to its next
    /// command, and the command counts as answered. Returns whether the
    /// client was told; it is not if the connection is not the worker's, if
    /// it was running no command, or if the kind is one that clients are
    /// not told of, and then nothing changes.
    pub fn on_error(&mut self, conn: u64, kind: ErrorKind, message: &[u8]) -> (told: bool)
        requires
            old(self).wf(),
        ensures
            final(self).wf(),
            told == (owns(old(self)@.clients, conn) && old(self)@.clients[place(
                old(self)@.clients,
                conn,
            )].state is Executing && kind.spec_sends_reply()),
            !owns(old(self)@.clients, conn) ==> final(self)@ == old(self)@,
            owns(old(self)@.clients, conn) ==> ({
                let i = place(old(self)@.clients, conn);
                final(self)@ == stepped(
                    old(self)@,
                    i,
                    after_failure(old(self)@.clients[i], kind, message@),
                )
            }),
    {
        match self.find(conn) {
            None => false,
            Some(i) => {
                let client = &mut self.clients[i];
                let queued_before = client.pending_output().len();
                let told = client.fail(kind, message);
                let queued = client.pending_output().len() - queued_before;
                let answered = told && !kind.closes_connection();
                self.count(0, queued, answered);
                proof {
                    let c = after_failure(old(self)@.clients[i as int], kind, message@);
                    assert(self@.clients =~= stepped(old(self)@, i as int, c).clients);
                    lemma_update_keeps_wf(old(self)@, i as int, c);
                }
                told
            },
        }
    }

    /// The command of the connection `conn` has to wait for one of
    /// `resources`, until `deadline` if there is one: the connection is
    /// blocked and registered on each of them from `now` on. Returns
    /// whether the connection is the worker's and was running a command; if
    /// not, nothing changes.
    pub fn on_block(
        &mut self,
        registry: &mut WatcherRegistry,
        conn: u64,
        resources: Vec<Vec<u8>>,
        deadline: Option<u64>,
        now: u64,
    ) -> (blocked: bool)
        requires
            old(self).wf(),
            old(registry).wf(),
        ensures
            final(self).wf(),
            final(registry).wf(),
            blocked == (owns(old(self)@.clients, conn) && old(self)@.clients[place(
                old(self)@.clients,
                conn,
            )].state is Executing),
            !blocked ==> final(self)@ == old(self)@ && final(registry)@ == old(registry)@,
            blocked ==> ({
                let i = place(old(self)@.clients, conn);
                let on = Seq::new(resources@.len(), |k: int| resources@[k]@);
                &&& final(self)@ == stepped(
                    old(self)@,
                    i,
                    after_block(old(self)@.clients[i], on, deadline),
                )
                &&& final(registry)@ == registered_on(
                    old(registry)@,
                    on,
                    waiter_for(old(self)@.id, conn, now, deadline),
                )
            }),
    {
        match self.find(conn) {
            None => false,
            Some(i) => {
                if !self.clients[i].state().is_executing() {
                    return false;
                }
                registry.register_all(
                    &resources,
                    ConnectionRef { worker: self.id, conn },
                    now,
                    deadline,
                );
                let ghost on = Seq::new(resources@.len(), |k: int| resources@[k]@);
                let client = &mut self.clients[i];
                client.block(resources, deadline);
                proof {
                    let c = after_block(old(self)@.clients[i as int], on, deadline);
                    assert(self@.clients =~= stepped(old(self)@, i as int, c).clients);
                    lemma_update_keeps_wf(old(self)@, i as int, c);
                }
                true
            },
        }
    }

    /// The registry has woken the connection `conn`: if it is blocked, its
    /// command is to be run again, and it waits on nothing any more.
    /// Returns whether the connection is the worker's and was blocked; if
    /// not, nothing changes.
    pub fn on_wake_up(&mut self, registry: &mut WatcherRegistry, conn: u64) -> (woken: bool)
        requires
            old(self).wf(),
            old(registry).wf(),
        ensures
            final(self).wf(),
            final(registry).wf(),
            woken == (owns(old(self)@.clients, conn) && old(self)@.clients[place(
                old(self)@.clients,
                conn,
            )].state is Blocked),
            !woken ==> final(self)@ == old(self)@ && final(registry)@ == old(registry)@,
            woken ==> ({
                let i = place(old(self)@.clients, conn);
                &&& final(self)@ == stepped(old(self)@, i, after_wake(old(self)@.clients[i]))
                &&& final(registry)@ == without(old(registry)@, of_conn(conn))
            }),
    {
        match self.find(conn) {
            None => false,
            Some(i) => {
                let client = &mut self.clients[i];
                let woken = client.wake();
                if woken {
                    registry.deregister_all(ConnectionRef { worker: self.id, conn });
                }
                proof {
                    let c = after_wake(old(self)@.clients[i as int]);
                    assert(self@.clients =~= stepped(old(self)@, i as int, c).clients);
                    lemma_update_keeps_wf(old(self)@, i as int, c);
                    if !woken {
                        assert(self@.clients =~= old(self)@.clients);
                    }
                }
                woken
            },
        }
    }

    /// The registry reports at `now` that the wait of the connection
    /// `conn` is over time: if it is blocked and its deadline has been
    /// reached, the client gets the empty reply, the connection goes on to
    /// its next command, and it waits on nothing any more. Returns whether
    /// that was so; if not, nothing changes.
    pub fn on_timeout(&mut self, registry: &mut WatcherRegistry, conn: u64, now: u64) -> (ended:
        bool)
        requires
            old(self).wf(),
            old(registry).wf(),
        ensures
            final(self).wf(),
            final(registry).wf(),
            ended == (owns(old(self)@.clients, conn) && times_out(
                old(self)@.clients[place(old(self)@.clients, conn)],
                now,
            )),
            !ended ==> final(self)@ == old(self)@ && final(registry)@ == old(registry)@,
            ended ==> ({
                let i = place(old(self)@.clients, conn);
                &&& final(self)@ == stepped(
                    old(self)@,
                    i,
                    after_time_out(old(self)@.clients[i], now),
                )
                &&& final(registry)@ == without(old(registry)@, of_conn(conn))
            }),
    {
        match self.find(conn) {
            None => false,
            Some(i) => {
                let client = &mut self.clients[i];
                let queued_before = client.pending_output().len();
                let ended = client.time_out(now);
                let queued = client.pending_output().len() - queued_before;
                self.count(0, queued, ended);
                if ended {
                    registry.deregister_all(ConnectionRef { worker: self.id, conn });
                }
                proof {
                    let c = after_time_out(old(self)@.clients[i as int], now);
                    assert(self@.clients =~= stepped(old(self)@, i as int, c).clients);
                    lemma_update_keeps_wf(old(self)@, i as int, c);
                    if !ended {
                        assert(self@.clients =~= old(self)@.clients);
                    }
                }
                ended
            },
        }
    }

    /// The first `n` queued bytes of the connection `conn` were written to
    /// its socket. Returns how many bytes left the queue.
    pub fn on_written(&mut self, conn: u64, n: usize) -> (dropped: usize)
        requires
            old(self).wf(),
        ensures
            final(self).wf(),
            !owns(old(self)@.clients, conn) ==> dropped == 0 && final(self)@ == old(self)@,
            owns(old(self)@.clients, conn) ==> ({
                let i = place(old(self)@.clients, conn);
                &&& dropped == dropped_of(old(self)@.clients[i], n as nat)
                &&& final(self)@ == stepped(
                    old(self)@,
                    i,
                    after_written(old(self)@.clients[i], n as nat),
                )
            }),
    {
        match self.find(conn) {
            None => 0,
            Some(i) => {
                let client = &mut self.clients[i];
                let dropped = client.written(n);
                proof {
                    let c = after_written(old(self)@.clients[i as int], n as nat);
                    assert(self@.clients =~= stepped(old(self)@, i as int, c).clients);
                    lemma_update_keeps_wf(old(self)@, i as int, c);
                }
                dropped
            },
        }
    }

    /// The socket of the connection `conn` was closed or failed: the
    /// worker gives the connection up, and the connection waits on nothing
    /// any more, whoever owned it. Returns the connection as it was left,
    /// or `None` if the worker did not own it.
    pub fn on_closed(&mut self, registry: &mut WatcherRegistry, conn: u64) -> (gone: Option<Client>)
        requires
            old(self).wf(),
            old(registry).wf(),
        ensures
            final(self).wf(),
            final(registry).wf(),
            final(registry)@ == without(old(registry)@, of_conn(conn)),
            !owns(final(self)@.clients, conn),
            match gone {
                None => !owns(old(self)@.clients, conn) && final(self)@ == old(self)@,
                Some(c) => owns(old(self)@.clients, conn) && ({
                    let i = place(old(self)@.clients, conn);
                    &&& c.wf()
                    &&& c@ == after_disconnect(old(self)@.clients[i])
                    &&& final(self)@ == (WorkerView {
                        clients: old(self)@.clients.remove(i),
                        ..old(self)@
                    })
                }),
            },
    {
        registry.deregister_all(ConnectionRef { worker: self.id, conn });
        match self.find(conn) {
            None => None,
            Some(i) => {
                let mut client = self.clients.remove(i);
                client.disconnect();
                proof {
                    let left = old(self)@.clients.remove(i as int);
                    assert(self@.clients =~= left);
                    lemma_remove_keeps_wf(old(self)@, i as int);
                    assert(!owns(left, conn)) by {
                        if owns(left, conn) {
                            let p = place(left, conn);
                            let q = if p < i { p } else { p + 1 };
                            assert(old(self)@.clients[q].id == conn);
                            lemma_place(old(self)@.clients, q);
                        }
                    }
                }
                Some(client)
            },
        }
    }

    /// Gives up every connection, as when the worker has failed or shuts
    /// down. The connections are returned as they are, in the order in
    /// which the worker got them, to be adopted by other workers or
    /// closed.
    pub fn drain(&mut self) -> (orphans: Vec<Client>)
        requires
            old(self).wf(),
        ensures
            final(self).wf(),
            final(self)@ == (WorkerView { clients: Seq::empty(), ..old(self)@ }),
            orphans@.len() == old(self)@.clients.len(),
            forall|i: int|
                0 <= i < orphans@.len() ==> (#[trigger] orphans@[i])@ == old(self)@.clients[i]
                    && orphans@[i].wf(),
    {
        let mut orphans: Vec<Client> = Vec::new();
        core::mem::swap(&mut self.clients, &mut orphans);
        assert(self@.clients =~= Seq::<ClientView>::empty());
        assert forall|i: int| 0 <= i < orphans@.len() implies (#[trigger] orphans@[i])@ == old(
            self,
        )@.clients[i] && orphans@[i].wf() by {
            assert(client_wf(old(self)@.clients[i]));
        }
        orphans
    }

    /// The worker is told to stop. Every connection is closed and given
    /// up, except that a command which is being run may finish as long as
    /// the grace period is not over: a blocked connection is closed like
    /// any other and waits on nothing any more. Returns the connections
    /// that were closed, in the order in which the worker got them.
    pub fn on_shutdown(&mut self, registry: &mut WatcherRegistry, grace_over: bool) -> (closed: Vec<
        Client,
    >)
        requires
            old(self).wf(),
            old(registry).wf(),
        ensures
            final(self).wf(),
            final(registry).wf(),
            final(self)@ == (WorkerView {
                clients: old(self)@.clients.filter(finishing(grace_over)),
                ..old(self)@
            }),
            client_views(closed@) == old(self)@.clients.filter(stopping(grace_over)).map_values(
                |c: ClientView| after_disconnect(c),
            ),
            forall|i: int| 0 <= i < closed@.len() ==> (#[trigger] closed@[i]).wf(),
            final(registry)@ == without_each(old(registry)@, ids_of(client_views(closed@))),
            grace_over ==> final(self)@.clients.len() == 0,
    {
        let ghost before = self@.clients;
        let ghost watches = registry@;
        let mut all: Vec<Client> = Vec::new();
        core::mem::swap(&mut self.clients, &mut all);
        let mut closed: Vec<Client> = Vec::new();
        proof {
            reveal(Seq::filter);
            assert(client_views(all@) =~= before);
            assert(self@.clients =~= before.take(0).filter(finishing(grace_over)));
            assert(client_views(closed@) =~= before.take(0).filter(stopping(grace_over)).map_values(
                |c: ClientView| after_disconnect(c),
            ));
            assert(ids_of(client_views(closed@)) =~= Seq::<u64>::empty());
        }
        for client in it: all
            invariant
                client_views(it.seq()) == before,
                worker_wf(WorkerView { clients: before, ..self@ }),
                self.id == old(self).id,
                self.tally == old(self).tally,
                registry.wf(),
                self@.clients == before.take(it.index() as int).filter(finishing(grace_over)),
                client_views(closed@) == before.take(it.index() as int).filter(stopping(grace_over)).map_values(
                    |c: ClientView| after_disconnect(c),
                ),
                forall|k: int| 0 <= k < closed@.len() ==> (#[trigger] closed@[k]).wf(),
                registry@ == without_each(watches, ids_of(client_views(closed@))),
                grace_over ==> self@.clients.len() == 0,
        {
            let ghost i = it.index() as int;
            let ghost c = before[i];
            let ghost kept = self@.clients;
            let ghost shut = before.take(it.index() as int).filter(stopping(grace_over));
            let ghost gone = client_views(closed@);
            proof {
                assert(client@ == c);
                assert(client_wf(c));
                assert(before.take(i + 1) =~= before.take(i).push(c));
                before.take(it.index() as int).lemma_filter_push(c, finishing(grace_over));
                before.take(it.index() as int).lemma_filter_push(c, stopping(grace_over));
            }
            match shutdown_action(client.state(), grace_over) {
                ShutdownAction::Finish => {
                    self.clients.push(client);
                    assert(self@.clients =~= kept.push(c));
                },
                ShutdownAction::Close => {
                    let mut client = client;
                    client.disconnect();
                    registry.deregister_all(ConnectionRef { worker: self.id, conn: client.id() });
                    closed.push(client);
                    proof {
                        assert(client_views(closed@) =~= gone.push(after_disconnect(c)));
                        assert(shut.push(c).map_values(|c: ClientView| after_disconnect(c))
                            =~= gone.push(after_disconnect(c)));
                        assert(ids_of(client_views(closed@)).drop_last() =~= ids_of(gone));
                        assert(ids_of(client_views(closed@)).last() == c.id);
                        assert(self@.clients =~= kept);
                    }
                },
            }
        }
        proof {
            assert(before.take(before.len() as int) =~= before);
            lemma_filter_keeps_wf(old(self)@, finishing(grace_over));
        }
        closed
    }

    /// The worker's counters as they stand: what it has counted, and how
    /// many connections it owns and how many of them are blocked right
    /// now.
    pub fn counters(&self) -> (c: WorkerCounters)
        ensures
            c == (WorkerCounters {
                commands_processed: self@.commands_processed,
                bytes_in: self@.bytes_in,
                bytes_out: self@.bytes_out,
                active_connections: self@.clients.len() as u64,
                blocked_clients: count_blocked(self@.clients) as u64,
            }),
    {
        let mut blocked: usize = 0;
        let mut i: usize = 0;
        assert(self@.clients.take(0) =~= Seq::<ClientView>::empty());
        while i < self.clients.len()
            invariant
                i <= self.clients.len(),
                blocked <= i,
                blocked == count_blocked(self@.clients.take(i as int)),
            decreases self.clients.len() - i,
        {
            proof {
                let next = self@.clients.take(i + 1);
                assert(next.drop_last() =~= self@.clients.take(i as int));
                assert(next.last() == self.clients@[i as int]@);
            }
            if self.clients[i].state().is_blocked() {
                blocked += 1;
            }
            i += 1;
        }
        assert(self@.clients.take(self.clients.len() as int) =~= self@.clients);
        let mut c = self.tally;
        c.set_connections(self.clients.len(), blocked);
        c
    }
}

proof fn lemma_update_keeps_wf(v: WorkerView, i: int, c: ClientView)
    requires
        worker_wf(v),
        0 <= i < v.clients.len(),
        client_wf(c),
        c.id == v.clients[i].id,
        c.worker == v.id,
    ensures
        worker_wf(stepped(v, i, c)),
{
    let next = stepped(v, i, c);
    assert forall|a: int, b: int| 0 <= a < b < next.clients.len() implies (
    #[trigger] next.clients[a]).id != (#[trigger] next.clients[b]).id by {
        assert(v.clients[a].id != v.clients[b].id);
    }
    assert forall|a: int| 0 <= a < next.clients.len() implies client_wf(#[trigger] next.clients[a])
        && next.clients[a].worker == next.id by {
        if a != i {
            assert(client_wf(v.clients[a]));
        }
    }
}

proof fn lemma_filter_keeps_wf(v: WorkerView, keep: spec_fn(ClientView) -> bool)
    requires
        worker_wf(v),
    ensures
        worker_wf(WorkerView { clients: v.clients.filter(keep), ..v }),
    decreases v.clients.len(),
{
    reveal(Seq::filter);
    let all = v.clients;
    if all.len() > 0 {
        let front = all.drop_last();
        let fv = WorkerView { clients: front, ..v };
        assert(worker_wf(fv)) by {
            assert forall|a: int, b: int| 0 <= a < b < front.len() implies (#[trigger] front[a]).id
                != (#[trigger] front[b]).id by {
                assert(all[a].id != all[b].id);
            }
            assert forall|a: int| 0 <= a < front.len() implies client_wf(#[trigger] front[a])
                && front[a].worker == v.id by {
                assert(client_wf(all[a]));
            }
        }
        lemma_filter_keeps_wf(fv, keep);
        if keep(all.last()) {
            let kept = front.filter(keep);
            let next = kept.push(all.last());
            assert(client_wf(all[all.len() - 1]));
            assert forall|a: int, b: int| 0 <= a < b < next.len() implies (#[trigger] next[a]).id
                != (#[trigger] next[b]).id by {
                if b == kept.len() {
                    assert(kept.contains(kept[a]));
                    front.lemma_filter_contains_rev(keep, kept[a]);
                    let j = choose|j: int| 0 <= j < front.len() && front[j] == kept[a];
                    assert(all[j].id != all[all.len() - 1].id);
                } else {
                    assert(kept[a].id != kept[b].id);
                }
            }
            assert forall|a: int| 0 <= a < next.len() implies client_wf(#[trigger] next[a])
                && next[a].worker == v.id by {
                if a < kept.len() {
                    assert(client_wf(kept[a]));
                }
            }
        }
    }
}

proof fn lemma_remove_keeps_wf(v: WorkerView, i: int)
    requires
        worker_wf(v),
        0 <= i < v.clients.len(),
    ensures
        worker_wf(WorkerView { clients: v.clients.remove(i), ..v }),
{
    let left = v.clients.remove(i);
    assert forall|a: int, b: int| 0 <= a < b < left.len() implies (#[trigger] left[a]).id != (
    #[trigger] left[b]).id by {
        let a1 = if a < i { a } else { a + 1 };
        let b1 = if b < i { b } else { b + 1 };
        assert(v.clients[a1].id != v.clients[b1].id);
    }
    assert forall|a: int| 0 <= a < left.len() implies client_wf(#[trigger] left[a]) && left[a].worker
        == v.id by {
        let a1 = if a < i { a } else { a + 1 };
        assert(client_wf(v.clients[a1]));
    }
}

} // verus!
