use sabledb::telemetry::{snapshot, TelemetrySnapshot, WorkerCounters};

#[test]
fn new_counters_are_zero() {
    assert_eq!(
        WorkerCounters::new(),
        WorkerCounters {
            commands_processed: 0,
            bytes_in: 0,
            bytes_out: 0,
            active_connections: 0,
            blocked_clients: 0,
        }
    );
}

#[test]
fn counters_count() {
    let mut c = WorkerCounters::new();
    c.record_command();
    c.record_command();
    c.record_read(10);
    c.record_read(5);
    c.record_write(7);
    c.set_connections(3, 1);
    assert_eq!(
        c,
        WorkerCounters {
            commands_processed: 2,
            bytes_in: 15,
            bytes_out: 7,
            active_connections: 3,
            blocked_clients: 1,
        }
    );
}

#[test]
fn a_counter_stays_at_the_largest_value() {
    let mut c = WorkerCounters::new();
    c.commands_processed = u64::MAX;
    c.bytes_in = u64::MAX - 3;
    c.bytes_out = u64::MAX - 3;
    c.record_command();
    c.record_read(3);
    c.record_write(4);
    assert_eq!(c.commands_processed, u64::MAX);
    assert_eq!(c.bytes_in, u64::MAX);
    assert_eq!(c.bytes_out, u64::MAX);
    c.record_read(1);
    assert_eq!(c.bytes_in, u64::MAX);
}

#[test]
fn a_snapshot_of_no_workers_is_zero() {
    assert_eq!(
        snapshot(&[]),
        TelemetrySnapshot {
            commands_processed: 0,
            bytes_in: 0,
            bytes_out: 0,
            active_connections: 0,
            blocked_clients: 0,
        }
    );
}

#[test]
fn a_snapshot_sums_each_counter_over_the_workers() {
    let workers = [
        WorkerCounters {
            commands_processed: 1,
            bytes_in: 10,
            bytes_out: 100,
            active_connections: 2,
            blocked_clients: 1,
        },
        WorkerCounters {
            commands_processed: 2,
            bytes_in: 20,
            bytes_out: 200,
            active_connections: 3,
            blocked_clients: 0,
        },
        WorkerCounters {
            commands_processed: 4,
            bytes_in: 40,
            bytes_out: 400,
            active_connections: 0,
            blocked_clients: 0,
        },
    ];
    assert_eq!(
        snapshot(&workers),
        TelemetrySnapshot {
            commands_processed: 7,
            bytes_in: 70,
            bytes_out: 700,
            active_connections: 5,
            blocked_clients: 1,
        }
    );
}

#[test]
fn a_snapshot_does_not_overflow() {
    let full = WorkerCounters {
        commands_processed: u64::MAX,
        bytes_in: u64::MAX,
        bytes_out: 1,
        active_connections: 0,
        blocked_clients: 0,
    };
    let s = snapshot(&[full, full, full]);
    assert_eq!(s.commands_processed, 3 * (u64::MAX as u128));
    assert_eq!(s.bytes_in, 55340232221128654845u128);
    assert_eq!(s.bytes_out, 3);
}

#[test]
fn a_snapshot_of_two_groups_is_the_sum_of_their_snapshots() {
    let a = WorkerCounters {
        commands_processed: 5,
        bytes_in: 6,
        bytes_out: 7,
        active_connections: 8,
        blocked_clients: 9,
    };
    let b = WorkerCounters {
        commands_processed: 50,
        bytes_in: 60,
        bytes_out: 70,
        active_connections: 80,
        blocked_clients: 90,
    };
    let all = snapshot(&[a, b, a]);
    let left = snapshot(&[a]);
    let right = snapshot(&[b, a]);
    assert_eq!(all.commands_processed, left.commands_processed + right.commands_processed);
    assert_eq!(all.bytes_in, left.bytes_in + right.bytes_in);
    assert_eq!(all.bytes_out, left.bytes_out + right.bytes_out);
    assert_eq!(all.active_connections, left.active_connections + right.active_connections);
    assert_eq!(all.blocked_clients, left.blocked_clients + right.blocked_clients);
}
