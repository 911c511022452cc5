use sabledb::watchers::{ConnectionRef, Waiter, WatcherRegistry};

fn conn(worker: u64, conn: u64) -> ConnectionRef {
    ConnectionRef { worker, conn }
}

fn ids(waiters: &[Waiter]) -> Vec<u64> {
    waiters.iter().map(|w| w.conn).collect()
}

#[test]
fn new_registry_watches_nothing() {
    let mut reg = WatcherRegistry::new();
    assert_eq!(reg.watched(), 0);
    assert!(reg.waiters_on(b"q").is_empty());
    assert!(reg.notify(b"q", 1).is_empty());
    assert!(reg.expire_deadlines(u64::MAX).is_empty());
}

#[test]
fn register_appends_in_arrival_order() {
    let mut reg = WatcherRegistry::new();
    assert!(reg.register(b"q", conn(1, 10), 5, None));
    assert!(reg.register(b"q", conn(2, 11), 6, Some(100)));
    assert!(reg.register(b"q", conn(1, 12), 7, None));
    let waiters = reg.waiters_on(b"q");
    assert_eq!(
        waiters,
        vec![
            Waiter { worker: 1, conn: 10, registered_at: 5, deadline: None },
            Waiter { worker: 2, conn: 11, registered_at: 6, deadline: Some(100) },
            Waiter { worker: 1, conn: 12, registered_at: 7, deadline: None },
        ]
    );
    assert_eq!(reg.watched(), 1);
}

#[test]
fn registering_the_same_pair_twice_is_a_no_op() {
    let mut once = WatcherRegistry::new();
    once.register(b"q", conn(1, 10), 5, Some(50));
    once.register(b"q", conn(1, 11), 6, None);

    let mut twice = WatcherRegistry::new();
    assert!(twice.register(b"q", conn(1, 10), 5, Some(50)));
    assert!(twice.register(b"q", conn(1, 11), 6, None));
    assert!(!twice.register(b"q", conn(1, 10), 9, Some(99)));
    assert!(!twice.register(b"q", conn(3, 10), 9, None));

    assert_eq!(once.waiters_on(b"q"), twice.waiters_on(b"q"));
    assert_eq!(twice.waiters_on(b"q")[0].deadline, Some(50));
    assert_eq!(twice.waiters_on(b"q")[0].registered_at, 5);
    assert_eq!(once.notify(b"q", 1), twice.notify(b"q", 1));
    assert_eq!(once.notify(b"q", 1), twice.notify(b"q", 1));
    assert_eq!(once.notify(b"q", 1), twice.notify(b"q", 1));
}

#[test]
fn the_same_connection_may_wait_on_several_resources() {
    let mut reg = WatcherRegistry::new();
    assert!(reg.register(b"a", conn(1, 10), 5, None));
    assert!(reg.register(b"b", conn(1, 10), 5, None));
    assert!(reg.is_waiting(b"a", 10));
    assert!(reg.is_waiting(b"b", 10));
    assert!(!reg.is_waiting(b"c", 10));
    assert_eq!(reg.watched(), 2);
}

#[test]
fn notify_wakes_in_registration_order() {
    let mut reg = WatcherRegistry::new();
    for c in 0..5u64 {
        reg.register(b"q", conn(c % 2, 100 + c), c, None);
    }
    assert_eq!(ids(&reg.notify(b"q", 1)), vec![100]);
    assert_eq!(ids(&reg.notify(b"q", 2)), vec![101, 102]);
    assert_eq!(ids(&reg.waiters_on(b"q")), vec![103, 104]);
    assert_eq!(ids(&reg.notify(b"q", 1)), vec![103]);
    assert_eq!(ids(&reg.notify(b"q", 1)), vec![104]);
    assert!(reg.notify(b"q", 1).is_empty());
}

#[test]
fn notify_names_the_owning_worker() {
    let mut reg = WatcherRegistry::new();
    reg.register(b"q", conn(7, 10), 3, Some(9));
    let woken = reg.notify(b"q", 1);
    assert_eq!(woken, vec![Waiter { worker: 7, conn: 10, registered_at: 3, deadline: Some(9) }]);
}

#[test]
fn notify_with_no_units_wakes_nobody() {
    let mut reg = WatcherRegistry::new();
    reg.register(b"q", conn(1, 10), 0, None);
    assert!(reg.notify(b"q", 0).is_empty());
    assert_eq!(ids(&reg.waiters_on(b"q")), vec![10]);
}

#[test]
fn notify_with_more_units_than_waiters_wakes_all() {
    let mut reg = WatcherRegistry::new();
    reg.register(b"q", conn(1, 10), 0, None);
    reg.register(b"q", conn(1, 11), 0, None);
    assert_eq!(ids(&reg.notify(b"q", 5)), vec![10, 11]);
    assert_eq!(reg.watched(), 0);
}

#[test]
fn notify_leaves_other_resources_alone() {
    let mut reg = WatcherRegistry::new();
    reg.register(b"a", conn(1, 10), 0, None);
    reg.register(b"b", conn(1, 11), 0, None);
    assert_eq!(ids(&reg.notify(b"a", 1)), vec![10]);
    assert_eq!(ids(&reg.waiters_on(b"b")), vec![11]);
    assert!(reg.notify(b"c", 1).is_empty());
    assert_eq!(reg.watched(), 1);
}

#[test]
fn notify_all_wakes_every_waiter() {
    let mut reg = WatcherRegistry::new();
    reg.register(b"chan", conn(1, 10), 0, None);
    reg.register(b"chan", conn(2, 11), 0, None);
    reg.register(b"chan", conn(3, 12), 0, None);
    reg.register(b"other", conn(3, 12), 0, None);
    assert_eq!(ids(&reg.notify_all(b"chan")), vec![10, 11, 12]);
    assert!(reg.waiters_on(b"chan").is_empty());
    assert_eq!(ids(&reg.waiters_on(b"other")), vec![12]);
}

#[test]
fn a_resource_without_waiters_is_dropped() {
    let mut reg = WatcherRegistry::new();
    reg.register(b"a", conn(1, 10), 0, Some(5));
    reg.register(b"b", conn(1, 11), 0, None);
    reg.register(b"c", conn(1, 12), 0, None);
    assert_eq!(reg.watched(), 3);
    reg.notify(b"b", 1);
    assert_eq!(reg.watched(), 2);
    reg.expire_deadlines(5);
    assert_eq!(reg.watched(), 1);
    reg.deregister_all(conn(1, 12));
    assert_eq!(reg.watched(), 0);
}

#[test]
fn deregister_all_then_notify_has_no_effect_for_the_connection() {
    let mut reg = WatcherRegistry::new();
    reg.register(b"q", conn(1, 10), 0, None);
    reg.register(b"q", conn(1, 11), 1, None);
    reg.register(b"r", conn(1, 10), 2, None);
    reg.register(b"s", conn(1, 10), 3, None);
    let dropped = reg.deregister_all(conn(1, 10));
    assert_eq!(dropped.len(), 3);
    assert!(dropped.iter().all(|w| w.conn == 10));
    assert!(!reg.is_waiting(b"q", 10));
    assert!(!reg.is_waiting(b"r", 10));
    assert!(!reg.is_waiting(b"s", 10));
    assert_eq!(ids(&reg.notify(b"q", 1)), vec![11]);
    assert!(reg.notify(b"q", 1).is_empty());
    assert!(reg.notify(b"r", 1).is_empty());
    assert!(reg.notify_all(b"s").is_empty());
    assert_eq!(reg.watched(), 0);
}

#[test]
fn deregister_all_keeps_the_order_of_the_others() {
    let mut reg = WatcherRegistry::new();
    for c in 0..6u64 {
        reg.register(b"q", conn(1, c), c, None);
    }
    reg.deregister_all(conn(1, 2));
    reg.deregister_all(conn(1, 0));
    reg.deregister_all(conn(1, 99));
    assert_eq!(ids(&reg.waiters_on(b"q")), vec![1, 3, 4, 5]);
}

#[test]
fn deregister_all_goes_by_the_connection_not_the_worker() {
    let mut reg = WatcherRegistry::new();
    reg.register(b"q", conn(1, 10), 0, None);
    let dropped = reg.deregister_all(conn(2, 10));
    assert_eq!(ids(&dropped), vec![10]);
    assert_eq!(reg.watched(), 0);
}

#[test]
fn expire_deadlines_removes_only_the_overdue() {
    let mut reg = WatcherRegistry::new();
    reg.register(b"q", conn(1, 10), 0, Some(100));
    reg.register(b"q", conn(1, 11), 0, None);
    reg.register(b"q", conn(1, 12), 0, Some(50));
    reg.register(b"q", conn(1, 13), 0, Some(101));
    let timeouts = reg.expire_deadlines(100);
    assert_eq!(ids(&timeouts), vec![10, 12]);
    assert_eq!(ids(&reg.waiters_on(b"q")), vec![11, 13]);
    assert!(reg.expire_deadlines(100).is_empty());
}

#[test]
fn a_deadline_is_reached_at_its_own_instant() {
    let mut reg = WatcherRegistry::new();
    reg.register(b"q", conn(1, 10), 0, Some(2000));
    assert!(reg.expire_deadlines(1999).is_empty());
    assert_eq!(ids(&reg.expire_deadlines(2000)), vec![10]);
}

#[test]
fn a_waiter_without_deadline_never_expires() {
    let mut reg = WatcherRegistry::new();
    reg.register(b"q", conn(1, 10), 0, None);
    assert!(reg.expire_deadlines(u64::MAX).is_empty());
    assert!(reg.is_waiting(b"q", 10));
}

#[test]
fn expire_deadlines_sweeps_every_resource() {
    let mut reg = WatcherRegistry::new();
    reg.register(b"a", conn(1, 10), 0, Some(5));
    reg.register(b"b", conn(2, 11), 0, Some(6));
    reg.register(b"c", conn(3, 12), 0, Some(7));
    let mut timeouts = ids(&reg.expire_deadlines(6));
    timeouts.sort();
    assert_eq!(timeouts, vec![10, 11]);
    assert_eq!(reg.watched(), 1);
    assert!(reg.is_waiting(b"c", 12));
}

#[test]
fn register_all_registers_on_each_resource() {
    let mut reg = WatcherRegistry::new();
    reg.register(b"b", conn(9, 1), 0, None);
    let keys = vec![b"a".to_vec(), b"b".to_vec(), b"a".to_vec()];
    reg.register_all(&keys, conn(1, 10), 4, Some(8));
    assert_eq!(
        reg.waiters_on(b"a"),
        vec![Waiter { worker: 1, conn: 10, registered_at: 4, deadline: Some(8) }]
    );
    assert_eq!(ids(&reg.waiters_on(b"b")), vec![1, 10]);
}

#[test]
fn resources_are_told_apart_byte_by_byte() {
    let mut reg = WatcherRegistry::new();
    reg.register(b"", conn(1, 1), 0, None);
    reg.register(b"q", conn(1, 2), 0, None);
    reg.register(b"qq", conn(1, 3), 0, None);
    reg.register(b"q\0", conn(1, 4), 0, None);
    assert_eq!(reg.watched(), 4);
    assert_eq!(ids(&reg.notify(b"q", 9)), vec![2]);
    assert_eq!(ids(&reg.notify(b"", 9)), vec![1]);
}

#[test]
fn a_hundred_waiters_on_a_hundred_keys_are_each_woken_once() {
    let mut reg = WatcherRegistry::new();
    for c in 0..100u64 {
        let key = format!("key:{}", c);
        assert!(reg.register(key.as_bytes(), conn(c % 4, c), c, None));
    }
    assert_eq!(reg.watched(), 100);
    let mut woken_by = vec![0u32; 100];
    // pushes arrive in an order unrelated to registration
    for step in 0..100u64 {
        let c = (step * 37 + 11) % 100;
        let key = format!("key:{}", c);
        let woken = reg.notify(key.as_bytes(), 1);
        assert_eq!(woken.len(), 1);
        assert_eq!(woken[0].conn, c);
        assert_eq!(woken[0].worker, c % 4);
        woken_by[c as usize] += 1;
        assert!(reg.notify(key.as_bytes(), 1).is_empty());
    }
    assert!(woken_by.iter().all(|n| *n == 1));
    assert_eq!(reg.watched(), 0);
}

#[test]
fn reassign_changes_the_owner_and_nothing_else() {
    let mut reg = WatcherRegistry::new();
    reg.register(b"a", conn(1, 10), 1, Some(5));
    reg.register(b"a", conn(1, 11), 2, None);
    reg.register(b"b", conn(1, 11), 3, None);
    reg.register(b"b", conn(1, 10), 4, None);
    reg.reassign(10, 7);
    assert_eq!(
        reg.waiters_on(b"a"),
        vec![
            Waiter { worker: 7, conn: 10, registered_at: 1, deadline: Some(5) },
            Waiter { worker: 1, conn: 11, registered_at: 2, deadline: None },
        ]
    );
    assert_eq!(
        reg.waiters_on(b"b"),
        vec![
            Waiter { worker: 1, conn: 11, registered_at: 3, deadline: None },
            Waiter { worker: 7, conn: 10, registered_at: 4, deadline: None },
        ]
    );
    reg.reassign(99, 3);
    assert_eq!(reg.watched(), 2);
    assert_eq!(ids(&reg.notify(b"b", 2)), vec![11, 10]);
}
