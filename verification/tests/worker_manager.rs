use sabledb::error_codes::ErrorKind;
use sabledb::server_options::ServerOptions;
use sabledb::client::Client;
use sabledb::client_state::ClientState;
use sabledb::codec::Reply;
use sabledb::watchers::WatcherRegistry;
use sabledb::worker::Worker;
use sabledb::worker_manager::{Restart, WorkerManager, WorkerRecord};

fn options(workers: usize, heartbeat_timeout_ms: u64) -> ServerOptions {
    ServerOptions::new(
        "0.0.0.0".to_string(),
        6379,
        workers,
        0,
        0,
        0,
        heartbeat_timeout_ms,
        1024,
        false,
    )
}

fn started(workers: usize, now: u64) -> WorkerManager {
    let bound = vec![true; workers];
    match WorkerManager::start(&options(workers, 1000), 1, &bound, now) {
        Ok(m) => m,
        Err(e) => panic!("start failed: {:?}", e),
    }
}

fn loads(m: &WorkerManager) -> Vec<u64> {
    m.records().iter().map(|r| r.connections).collect()
}

#[test]
fn start_opens_a_record_for_each_worker() {
    let m = started(3, 50);
    assert_eq!(
        m.records().clone(),
        vec![
            WorkerRecord { id: 0, alive: true, connections: 0, last_heartbeat: 50 },
            WorkerRecord { id: 1, alive: true, connections: 0, last_heartbeat: 50 },
            WorkerRecord { id: 2, alive: true, connections: 0, last_heartbeat: 50 },
        ]
    );
}

#[test]
fn start_falls_back_on_the_parallelism_of_the_host() {
    let bound = vec![true; 6];
    let m = WorkerManager::start(&options(0, 1000), 6, &bound, 0);
    assert_eq!(m.ok().map(|m| m.records().len()), Some(6));
    let bound = vec![true; 2];
    let m = WorkerManager::start(&options(2, 1000), 6, &bound, 0);
    assert_eq!(m.ok().map(|m| m.records().len()), Some(2));
}

#[test]
fn start_fails_without_workers() {
    let m = WorkerManager::start(&options(0, 1000), 0, &[], 0);
    assert_eq!(m.err(), Some(ErrorKind::StartupError));
}

#[test]
fn start_fails_if_a_worker_did_not_bind() {
    let m = WorkerManager::start(&options(3, 1000), 1, &[true, false, true], 0);
    assert_eq!(m.err(), Some(ErrorKind::StartupError));
    let m = WorkerManager::start(&options(3, 1000), 1, &[true, true, false], 0);
    assert_eq!(m.err(), Some(ErrorKind::StartupError));
}

#[test]
fn start_fails_if_a_worker_did_not_report() {
    let m = WorkerManager::start(&options(3, 1000), 1, &[true, true], 0);
    assert_eq!(m.err(), Some(ErrorKind::StartupError));
    let m = WorkerManager::start(&options(3, 1000), 1, &[true, true, true, true], 0);
    assert_eq!(m.err(), Some(ErrorKind::StartupError));
}

#[test]
fn the_least_loaded_worker_gets_the_connection() {
    let mut m = started(3, 0);
    assert_eq!(m.select_worker(), Some(0));
    assert_eq!(m.assign(), Some(0));
    assert_eq!(m.select_worker(), Some(1));
    assert_eq!(m.assign(), Some(1));
    assert_eq!(m.assign(), Some(2));
    assert_eq!(m.assign(), Some(0));
    assert_eq!(loads(&m), vec![2, 1, 1]);
}

#[test]
fn ties_go_to_the_lowest_id() {
    let mut m = started(4, 0);
    for _ in 0..4 {
        m.assign();
    }
    assert_eq!(loads(&m), vec![1, 1, 1, 1]);
    assert!(m.release(2));
    assert!(m.release(1));
    assert_eq!(m.select_worker(), Some(1));
    assert_eq!(m.assign(), Some(1));
    assert_eq!(m.assign(), Some(2));
    assert_eq!(m.assign(), Some(0));
}

#[test]
fn connections_are_spread_evenly() {
    let mut m = started(4, 0);
    for _ in 0..42 {
        assert!(m.assign().is_some());
    }
    assert_eq!(loads(&m), vec![11, 11, 10, 10]);
}

#[test]
fn release_gives_a_connection_back() {
    let mut m = started(2, 0);
    m.assign();
    m.assign();
    m.assign();
    assert_eq!(loads(&m), vec![2, 1]);
    assert!(m.release(0));
    assert!(m.release(0));
    assert!(!m.release(0));
    assert!(!m.release(7));
    assert_eq!(loads(&m), vec![0, 1]);
}

#[test]
fn heartbeat_is_noted_for_known_workers_only() {
    let mut m = started(2, 10);
    assert!(m.heartbeat(1, 99));
    assert!(!m.heartbeat(2, 99));
    assert_eq!(m.records()[0].last_heartbeat, 10);
    assert_eq!(m.records()[1].last_heartbeat, 99);
}

#[test]
fn supervise_spares_workers_that_reported_in_time() {
    let mut m = started(2, 0);
    m.heartbeat(0, 500);
    m.heartbeat(1, 400);
    assert!(m.supervise(1400).is_empty());
    assert_eq!(m.records()[0].id, 0);
    assert_eq!(m.records()[1].id, 1);
}

#[test]
fn supervise_restarts_a_worker_one_instant_past_its_deadline() {
    let mut m = started(2, 0);
    m.heartbeat(0, 500);
    m.heartbeat(1, 400);
    assert_eq!(
        m.supervise(1401),
        vec![Restart { failed: 1, orphaned: 0, replacement: Some(2) }]
    );
    assert_eq!(
        m.records().clone(),
        vec![
            WorkerRecord { id: 0, alive: true, connections: 0, last_heartbeat: 500 },
            WorkerRecord { id: 2, alive: true, connections: 0, last_heartbeat: 1401 },
        ]
    );
    assert!(m.supervise(1401).is_empty());
}

#[test]
fn supervise_gives_each_replacement_a_fresh_id() {
    let mut m = started(3, 0);
    m.heartbeat(1, 5000);
    let restarts = m.supervise(5000);
    assert_eq!(
        restarts,
        vec![
            Restart { failed: 0, orphaned: 0, replacement: Some(3) },
            Restart { failed: 2, orphaned: 0, replacement: Some(4) },
        ]
    );
    let ids: Vec<u64> = m.records().iter().map(|r| r.id).collect();
    assert_eq!(ids, vec![3, 1, 4]);
    let restarts = m.supervise(9000);
    assert_eq!(
        restarts,
        vec![
            Restart { failed: 3, orphaned: 0, replacement: Some(5) },
            Restart { failed: 1, orphaned: 0, replacement: Some(6) },
            Restart { failed: 4, orphaned: 0, replacement: Some(7) },
        ]
    );
    assert!(!m.heartbeat(0, 9001));
    assert!(m.heartbeat(5, 9001));
}

#[test]
fn a_clock_that_runs_backwards_fails_nobody() {
    let mut m = started(2, 5000);
    assert!(m.supervise(0).is_empty());
}

#[test]
fn the_connections_of_a_dead_worker_all_find_a_new_owner() {
    let mut m = started(3, 0);
    // worker 1 ends up with ten connections, the others with a few
    for _ in 0..30 {
        m.assign();
    }
    for _ in 0..7 {
        m.release(0);
    }
    for _ in 0..4 {
        m.release(2);
    }
    assert_eq!(loads(&m), vec![3, 10, 6]);
    m.heartbeat(0, 2000);
    m.heartbeat(2, 2000);
    let restarts = m.supervise(2000);
    assert_eq!(restarts, vec![Restart { failed: 1, orphaned: 10, replacement: Some(3) }]);
    assert_eq!(loads(&m), vec![3, 0, 6]);

    let targets = m.place_orphans(restarts[0].orphaned as usize);
    assert_eq!(targets.len(), 10);
    assert!(targets.iter().all(|t| t.is_some()));
    assert!(targets.iter().all(|t| *t != Some(1)));
    assert_eq!(
        targets,
        vec![
            Some(3), Some(3), Some(3), Some(0), Some(3), Some(0), Some(3), Some(0), Some(3),
            Some(0),
        ]
    );
    assert_eq!(loads(&m), vec![7, 6, 6]);
    assert_eq!(loads(&m).iter().sum::<u64>(), 19);
}

#[test]
fn place_orphans_of_none_changes_nothing() {
    let mut m = started(2, 0);
    m.assign();
    assert!(m.place_orphans(0).is_empty());
    assert_eq!(loads(&m), vec![1, 0]);
}

#[test]
fn after_shutdown_no_connection_is_handed_out() {
    let mut m = started(2, 0);
    assert_eq!(m.assign(), Some(0));
    m.shutdown();
    assert_eq!(m.assign(), None);
    assert_eq!(m.assign(), None);
    assert_eq!(loads(&m), vec![1, 0]);
}

#[test]
fn a_reported_failure_restarts_the_worker_at_once() {
    let mut m = started(3, 0);
    for _ in 0..7 {
        m.assign();
    }
    assert_eq!(loads(&m), vec![3, 2, 2]);
    assert_eq!(
        m.report_failure(0, 40),
        Some(Restart { failed: 0, orphaned: 3, replacement: Some(3) })
    );
    assert_eq!(
        m.records().clone(),
        vec![
            WorkerRecord { id: 3, alive: true, connections: 0, last_heartbeat: 40 },
            WorkerRecord { id: 1, alive: true, connections: 2, last_heartbeat: 0 },
            WorkerRecord { id: 2, alive: true, connections: 2, last_heartbeat: 0 },
        ]
    );
    assert_eq!(m.report_failure(0, 41), None);
    assert_eq!(m.report_failure(9, 41), None);
    assert_eq!(m.place_orphans(3), vec![Some(3), Some(3), Some(1)]);
}

#[test]
fn accepted_connections_get_ids_that_never_repeat() {
    let mut m = started(2, 0);
    let mut seen = Vec::new();
    for n in 0..6u64 {
        let c = m.accept(100 + n);
        let c = match c {
            Some(c) => c,
            None => panic!("not accepted"),
        };
        assert_eq!(c.id(), n);
        assert_eq!(c.worker(), n % 2);
        assert_eq!(c.last_activity(), 100 + n);
        assert_eq!(*c.state(), ClientState::Idle);
        assert!(!seen.contains(&c.id()));
        seen.push(c.id());
    }
    assert_eq!(loads(&m), vec![3, 3]);
    m.shutdown();
    assert!(m.accept(200).is_none());
    assert_eq!(loads(&m), vec![3, 3]);
}

#[test]
fn a_worker_that_is_killed_leaves_no_connection_behind() {
    let mut reg = WatcherRegistry::new();
    let mut m = started(3, 0);
    let mut workers: Vec<Worker> = (0..3).map(Worker::new).collect();
    // each worker gets ten connections; five of worker 0 and of worker 2 close again
    for _ in 0..30 {
        let c = match m.accept(1) {
            Some(c) => c,
            None => panic!("not accepted"),
        };
        let owner = c.worker() as usize;
        assert!(workers[owner].adopt(&mut reg, c).is_none());
    }
    let accepted = 30;
    for id in 0..30u64 {
        let owner = (id % 3) as usize;
        if owner != 1 && id < 15 {
            assert!(workers[owner].on_closed(&mut reg, id).is_some());
            assert!(m.release(owner as u64));
        }
    }
    assert_eq!(loads(&m), vec![5, 10, 5]);
    let doomed: Vec<u64> = (0..accepted).filter(|id| workers[1].client(*id).is_some()).collect();
    assert_eq!(doomed.len(), 10);

    // one of the ten is blocked, one is in the middle of a command, one has a reply queued
    workers[1].on_readable(doomed[0], b"blpop q 0\r\n", 2, 1024);
    workers[1].on_block(&mut reg, doomed[0], vec![b"q".to_vec()], None, 2);
    workers[1].on_readable(doomed[1], b"get a\r\n", 2, 1024);
    workers[1].on_readable(doomed[2], b"ping\r\n", 2, 1024);
    workers[1].on_reply(doomed[2], &Reply::Status(b"PONG".to_vec()));

    // the worker dies
    let restart = m.report_failure(1, 3);
    assert_eq!(restart, Some(Restart { failed: 1, orphaned: 10, replacement: Some(3) }));
    let orphans = workers[1].drain();
    workers[1] = Worker::new(3);

    let outcome = m.reassign(orphans);
    assert_eq!(outcome.moved.len() + outcome.closed.len(), 10);
    assert!(outcome.closed.is_empty());
    assert_eq!(loads(&m), vec![7, 6, 7]);
    for (target, client) in outcome.moved {
        let owner = workers.iter_mut().find(|w| w.id() == target);
        match owner {
            Some(w) => assert!(w.adopt(&mut reg, client).is_none()),
            None => panic!("no worker {}", target),
        }
    }
    let owned: usize = workers.iter().map(|w| w.connections()).sum();
    assert_eq!(owned, 20);
    for id in &doomed {
        let owners = workers.iter().filter(|w| w.client(*id).is_some()).count();
        assert_eq!(owners, 1, "connection {}", id);
    }
    // each connection answers where it left off
    let owner_of = |workers: &Vec<Worker>, id: u64| {
        workers.iter().position(|w| w.client(id).is_some()).unwrap_or(usize::MAX)
    };
    let w = owner_of(&workers, doomed[0]);
    let woken = reg.notify(b"q", 1);
    assert_eq!((woken[0].worker, woken[0].conn), (workers[w].id(), doomed[0]));
    assert!(workers[w].on_wake_up(&mut reg, doomed[0]));
    let w = owner_of(&workers, doomed[1]);
    assert!(workers[w].on_reply(doomed[1], &Reply::Nil));
    let w = owner_of(&workers, doomed[2]);
    assert_eq!(
        workers[w].client(doomed[2]).map(|c| c.pending_output().to_vec()),
        Some(b"+PONG\r\n".to_vec())
    );
}

#[test]
fn a_connection_that_no_worker_can_take_is_closed_with_an_error() {
    let mut m = started(1, 0);
    let mut closing = Client::new(7, 0, 0);
    closing.disconnect();
    let outcome = m.reassign(vec![Client::new(5, 0, 0), closing, Client::new(6, 0, 0)]);
    let moved: Vec<(u64, u64)> = outcome.moved.iter().map(|(w, c)| (*w, c.id())).collect();
    assert_eq!(moved, vec![(0, 5), (0, 6)]);
    assert_eq!(outcome.closed.len(), 1);
    assert_eq!(outcome.closed[0].id(), 7);
    assert!(outcome.closed[0].pending_output().is_empty());
    assert_eq!(loads(&m), vec![2]);
}
