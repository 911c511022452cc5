use sabledb::client::{refusal_reply, worker_failure_reply, Client, Poll};
use sabledb::client_state::{shutdown_action, ClientState, Event, ShutdownAction};
use sabledb::codec::{encode_command, Command, FrameError, Reply};

fn command(args: &[&[u8]]) -> Command {
    Command { args: args.iter().map(|a| a.to_vec()).collect() }
}

fn frame(args: &[&[u8]]) -> Vec<u8> {
    encode_command(&command(args))
}

#[test]
fn a_new_client_is_idle() {
    let c = Client::new(7, 2, 100);
    assert_eq!(c.id(), 7);
    assert_eq!(c.worker(), 2);
    assert_eq!(c.last_activity(), 100);
    assert_eq!(*c.state(), ClientState::Idle);
    assert!(c.command().is_none());
    assert!(c.pending_output().is_empty());
}

#[test]
fn bytes_move_an_idle_client_to_reading() {
    let mut c = Client::new(7, 2, 100);
    assert!(c.receive(b"*1\r\n", 150));
    assert_eq!(*c.state(), ClientState::ReadingFrame);
    assert_eq!(c.last_activity(), 150);
    assert_eq!(c.next_command(1024), Poll::Wait);
    assert_eq!(*c.state(), ClientState::ReadingFrame);
}

#[test]
fn no_bytes_leave_an_idle_client_idle() {
    let mut c = Client::new(7, 2, 100);
    assert!(c.receive(b"", 150));
    assert_eq!(*c.state(), ClientState::Idle);
    assert_eq!(c.last_activity(), 150);
    assert_eq!(c.next_command(1024), Poll::Wait);
}

#[test]
fn a_command_that_arrives_in_pieces_is_put_together() {
    let mut c = Client::new(1, 1, 0);
    let bytes = frame(&[b"SET", b"k", b"v"]);
    for (i, b) in bytes.iter().enumerate() {
        assert!(c.receive(&[*b], i as u64));
        let poll = c.next_command(1024);
        if i + 1 < bytes.len() {
            assert_eq!(poll, Poll::Wait);
            assert_eq!(*c.state(), ClientState::ReadingFrame);
        } else {
            assert_eq!(poll, Poll::Ready);
        }
    }
    assert_eq!(*c.state(), ClientState::Executing);
    assert_eq!(c.command(), Some(&command(&[b"SET", b"k", b"v"])));
}

#[test]
fn a_reply_is_queued_and_the_client_is_idle_again() {
    let mut c = Client::new(1, 1, 0);
    c.receive(&frame(&[b"PING"]), 1);
    assert_eq!(c.next_command(1024), Poll::Ready);
    assert!(c.complete(&Reply::Status(b"PONG".to_vec())));
    assert_eq!(*c.state(), ClientState::Idle);
    assert!(c.command().is_none());
    assert_eq!(c.pending_output(), b"+PONG\r\n");
}

#[test]
fn replies_are_queued_in_the_order_of_the_commands() {
    let mut c = Client::new(1, 1, 0);
    let mut bytes = frame(&[b"GET", b"a"]);
    bytes.extend_from_slice(&frame(&[b"GET", b"b"]));
    bytes.extend_from_slice(&frame(&[b"GET", b"c"]));
    c.receive(&bytes, 1);

    let mut seen = Vec::new();
    loop {
        match c.next_command(1024) {
            Poll::Ready => {
                let key = c.command().map(|cmd| cmd.args[1].clone()).unwrap_or_default();
                // a second command is not handed out before the first has its reply
                assert_eq!(c.next_command(1024), Poll::Busy);
                let mut value = b"value-of-".to_vec();
                value.extend_from_slice(&key);
                seen.push(key);
                assert!(c.complete(&Reply::Data(value)));
            }
            Poll::Wait => break,
            other => panic!("unexpected {:?}", other),
        }
    }
    assert_eq!(seen, vec![b"a".to_vec(), b"b".to_vec(), b"c".to_vec()]);
    assert_eq!(
        c.pending_output(),
        b"$10\r\nvalue-of-a\r\n$10\r\nvalue-of-b\r\n$10\r\nvalue-of-c\r\n"
    );
    assert_eq!(*c.state(), ClientState::Idle);
}

#[test]
fn what_follows_a_command_in_the_buffer_keeps_the_client_reading() {
    let mut c = Client::new(1, 1, 0);
    let mut bytes = frame(&[b"PING"]);
    bytes.extend_from_slice(b"*1\r\n$4\r\nPI");
    c.receive(&bytes, 1);
    assert_eq!(c.next_command(1024), Poll::Ready);
    assert!(c.complete(&Reply::Okay));
    assert_eq!(*c.state(), ClientState::ReadingFrame);
    assert_eq!(c.next_command(1024), Poll::Wait);
    c.receive(b"NG\r\n", 2);
    assert_eq!(c.next_command(1024), Poll::Ready);
    assert_eq!(c.command(), Some(&command(&[b"PING"])));
}

#[test]
fn a_reply_without_a_command_is_not_queued() {
    let mut c = Client::new(1, 1, 0);
    assert!(!c.complete(&Reply::Okay));
    c.receive(b"*1\r\n", 1);
    assert!(!c.complete(&Reply::Okay));
    assert!(c.pending_output().is_empty());
    assert_eq!(*c.state(), ClientState::ReadingFrame);
}

#[test]
fn a_malformed_frame_is_answered_and_closes_the_connection() {
    let mut c = Client::new(1, 1, 0);
    c.receive(b"*HELLO\r\n*1\r\n$4\r\nPING\r\n", 1);
    assert_eq!(c.next_command(1024), Poll::Refused(FrameError::Malformed));
    assert_eq!(*c.state(), ClientState::Closing);
    assert_eq!(c.pending_output(), b"-ERR Protocol error: malformed frame\r\n");
    assert_eq!(c.next_command(1024), Poll::Busy);
    assert!(!c.receive(b"*1\r\n$4\r\nPING\r\n", 2));
    assert_eq!(c.last_activity(), 1);
    assert_eq!(c.pending_output(), b"-ERR Protocol error: malformed frame\r\n");
}

#[test]
fn a_frame_over_the_limit_is_answered_and_closes_the_connection() {
    let bytes = frame(&[b"SET", b"key", b"value"]);
    assert_eq!(bytes.len(), 33);

    let mut at_limit = Client::new(1, 1, 0);
    at_limit.receive(&bytes, 1);
    assert_eq!(at_limit.next_command(33), Poll::Ready);

    let mut over = Client::new(2, 1, 0);
    over.receive(&bytes, 1);
    assert_eq!(over.next_command(32), Poll::Refused(FrameError::FrameTooLarge));
    assert_eq!(*over.state(), ClientState::Closing);
    assert_eq!(over.pending_output(), b"-ERR Protocol error: frame too large\r\n");
}

#[test]
fn the_replies_before_a_refused_frame_are_kept() {
    let mut c = Client::new(1, 1, 0);
    let mut bytes = frame(&[b"PING"]);
    bytes.extend_from_slice(b"*garbage\r\n");
    c.receive(&bytes, 1);
    assert_eq!(c.next_command(1024), Poll::Ready);
    c.complete(&Reply::Status(b"PONG".to_vec()));
    assert_eq!(c.next_command(1024), Poll::Refused(FrameError::Malformed));
    assert_eq!(c.pending_output(), b"+PONG\r\n-ERR Protocol error: malformed frame\r\n");
}

#[test]
fn the_refusal_replies() {
    assert_eq!(
        refusal_reply(FrameError::Malformed),
        Reply::Error(b"Protocol error: malformed frame".to_vec())
    );
    assert_eq!(
        refusal_reply(FrameError::FrameTooLarge),
        Reply::Error(b"Protocol error: frame too large".to_vec())
    );
}

#[test]
fn a_blocked_client_keeps_its_command_until_it_is_woken() {
    let mut c = Client::new(1, 1, 0);
    c.receive(&frame(&[b"BLPOP", b"q", b"0"]), 1);
    assert_eq!(c.next_command(1024), Poll::Ready);
    assert!(c.block(vec![b"q".to_vec()], None));
    assert_eq!(*c.state(), ClientState::Blocked { resources: vec![b"q".to_vec()], deadline: None });
    assert_eq!(c.next_command(1024), Poll::Busy);
    assert!(!c.complete(&Reply::Nil));
    assert!(c.pending_output().is_empty());

    assert!(c.wake());
    assert_eq!(*c.state(), ClientState::Executing);
    assert_eq!(c.command(), Some(&command(&[b"BLPOP", b"q", b"0"])));
    assert!(c.complete(&Reply::List(vec![b"q".to_vec(), b"v".to_vec()])));
    assert_eq!(c.pending_output(), b"*2\r\n$1\r\nq\r\n$1\r\nv\r\n");
    assert_eq!(*c.state(), ClientState::Idle);
}

#[test]
fn a_wake_up_does_nothing_to_a_client_that_is_not_blocked() {
    let mut c = Client::new(1, 1, 0);
    assert!(!c.wake());
    assert_eq!(*c.state(), ClientState::Idle);
    c.receive(b"*1\r\n", 1);
    assert!(!c.wake());
    assert_eq!(*c.state(), ClientState::ReadingFrame);
    c.receive(b"$4\r\nPING\r\n", 1);
    c.next_command(1024);
    assert!(!c.wake());
    assert_eq!(*c.state(), ClientState::Executing);
    c.disconnect();
    assert!(!c.wake());
    assert_eq!(*c.state(), ClientState::Closing);
}

#[test]
fn only_a_client_that_runs_a_command_can_be_blocked() {
    let mut c = Client::new(1, 1, 0);
    assert!(!c.block(vec![b"q".to_vec()], None));
    assert_eq!(*c.state(), ClientState::Idle);
}

#[test]
fn a_blocked_client_gets_the_empty_reply_at_its_deadline() {
    let mut c = Client::new(1, 1, 0);
    c.receive(&frame(&[b"BLPOP", b"q", b"2"]), 1000);
    assert_eq!(c.next_command(1024), Poll::Ready);
    assert!(c.block(vec![b"q".to_vec()], Some(3000)));
    assert!(!c.time_out(2999));
    assert!(matches!(c.state(), ClientState::Blocked { .. }));
    assert!(c.pending_output().is_empty());
    assert!(c.time_out(3000));
    assert_eq!(*c.state(), ClientState::Idle);
    assert_eq!(c.pending_output(), b"$-1\r\n");
    assert!(c.command().is_none());
    assert!(!c.time_out(4000));
    assert_eq!(c.pending_output(), b"$-1\r\n");
}

#[test]
fn a_client_without_deadline_does_not_time_out() {
    let mut c = Client::new(1, 1, 0);
    c.receive(&frame(&[b"BLPOP", b"q", b"0"]), 1);
    c.next_command(1024);
    c.block(vec![b"q".to_vec()], None);
    assert!(!c.time_out(u64::MAX));
    assert!(matches!(c.state(), ClientState::Blocked { .. }));
}

#[test]
fn a_disconnect_drops_what_was_read_of_a_frame() {
    let mut c = Client::new(1, 1, 0);
    c.receive(b"*2\r\n$3\r\nGET\r\n", 1);
    assert!(c.disconnect());
    assert_eq!(*c.state(), ClientState::Closing);
    assert!(!c.receive(b"$1\r\na\r\n", 2));
    assert_eq!(c.next_command(1024), Poll::Busy);
    assert!(c.command().is_none());
    assert!(!c.disconnect());
}

#[test]
fn a_disconnect_gives_up_the_command_of_a_blocked_client() {
    let mut c = Client::new(1, 1, 0);
    c.receive(&frame(&[b"BLPOP", b"q", b"0"]), 1);
    c.next_command(1024);
    c.block(vec![b"q".to_vec()], None);
    assert!(c.disconnect());
    assert!(c.command().is_none());
    assert!(!c.wake());
    assert!(!c.time_out(u64::MAX));
    assert!(!c.complete(&Reply::Nil));
    assert!(c.pending_output().is_empty());
}

#[test]
fn written_bytes_leave_the_queue_from_the_front() {
    let mut c = Client::new(1, 1, 0);
    c.receive(&frame(&[b"PING"]), 1);
    c.next_command(1024);
    c.complete(&Reply::Status(b"PONG".to_vec()));
    assert_eq!(c.written(0), 0);
    assert_eq!(c.written(3), 3);
    assert_eq!(c.pending_output(), b"NG\r\n");
    assert_eq!(c.written(100), 4);
    assert!(c.pending_output().is_empty());
    assert_eq!(c.written(1), 0);
}

#[test]
fn a_client_is_handed_over_as_it_is() {
    let mut c = Client::new(1, 1, 0);
    c.receive(&frame(&[b"BLPOP", b"q", b"0"]), 1);
    c.next_command(1024);
    c.block(vec![b"q".to_vec()], Some(9));
    c.set_worker(5);
    assert_eq!(c.worker(), 5);
    assert_eq!(c.id(), 1);
    assert_eq!(
        *c.state(),
        ClientState::Blocked { resources: vec![b"q".to_vec()], deadline: Some(9) }
    );
    assert_eq!(c.command(), Some(&command(&[b"BLPOP", b"q", b"0"])));
}

#[test]
fn the_transitions_of_the_state_machine() {
    let blocked = || ClientState::Blocked { resources: vec![b"q".to_vec()], deadline: Some(10) };
    let wait = || Event::MustWait { resources: vec![b"q".to_vec()], deadline: Some(10) };

    let mut s = ClientState::Idle;
    assert!(s.apply(Event::BytesArrived));
    assert_eq!(s, ClientState::ReadingFrame);
    assert!(s.apply(Event::BytesArrived));
    assert_eq!(s, ClientState::ReadingFrame);
    assert!(s.apply(Event::FrameComplete));
    assert_eq!(s, ClientState::Executing);
    assert!(s.apply(wait()));
    assert_eq!(s, blocked());
    assert!(!s.apply(Event::DeadlinePassed { now: 9 }));
    assert_eq!(s, blocked());
    assert!(s.apply(Event::DeadlinePassed { now: 10 }));
    assert_eq!(s, ClientState::Executing);
    assert!(s.apply(wait()));
    assert!(s.apply(Event::WakeUp));
    assert_eq!(s, ClientState::Executing);
    assert!(s.apply(Event::Replied));
    assert_eq!(s, ClientState::Idle);
    assert!(s.apply(Event::Disconnected));
    assert_eq!(s, ClientState::Closing);
}

#[test]
fn events_out_of_place_are_ignored() {
    let mut s = ClientState::Idle;
    assert!(!s.apply(Event::FrameComplete));
    assert!(!s.apply(Event::FrameRefused));
    assert!(!s.apply(Event::Replied));
    assert!(!s.apply(Event::WakeUp));
    assert!(!s.apply(Event::DeadlinePassed { now: u64::MAX }));
    assert!(!s.apply(Event::MustWait { resources: Vec::new(), deadline: None }));
    assert_eq!(s, ClientState::Idle);

    let mut s = ClientState::Executing;
    assert!(!s.apply(Event::FrameComplete));
    assert!(!s.apply(Event::WakeUp));
    assert!(s.apply(Event::BytesArrived));
    assert_eq!(s, ClientState::Executing);

    let mut s = ClientState::ReadingFrame;
    assert!(s.apply(Event::FrameRefused));
    assert_eq!(s, ClientState::Closing);
}

#[test]
fn nothing_leads_out_of_closing() {
    let events = || {
        vec![
            Event::BytesArrived,
            Event::FrameComplete,
            Event::FrameRefused,
            Event::Replied,
            Event::MustWait { resources: Vec::new(), deadline: None },
            Event::WakeUp,
            Event::DeadlinePassed { now: 0 },
            Event::Disconnected,
        ]
    };
    for e in events() {
        let mut s = ClientState::Closing;
        assert!(!s.apply(e));
        assert_eq!(s, ClientState::Closing);
    }
    for from in [ClientState::Idle, ClientState::ReadingFrame, ClientState::Executing] {
        let mut s = from;
        assert!(s.apply(Event::Disconnected));
        assert_eq!(s, ClientState::Closing);
    }
}

#[test]
fn the_state_tells_what_it_is() {
    assert!(ClientState::Idle.is_idle());
    assert!(ClientState::ReadingFrame.is_reading());
    assert!(ClientState::Executing.is_executing());
    assert!(ClientState::Blocked { resources: Vec::new(), deadline: None }.is_blocked());
    assert!(ClientState::Closing.is_closing());
    assert!(!ClientState::Idle.is_closing());
    assert!(!ClientState::Closing.is_idle());
}

#[test]
fn at_shutdown_only_a_running_command_may_finish() {
    let blocked = ClientState::Blocked { resources: Vec::new(), deadline: None };
    assert_eq!(shutdown_action(&ClientState::Executing, false), ShutdownAction::Finish);
    assert_eq!(shutdown_action(&ClientState::Executing, true), ShutdownAction::Close);
    assert_eq!(shutdown_action(&blocked, false), ShutdownAction::Close);
    assert_eq!(shutdown_action(&ClientState::Idle, false), ShutdownAction::Close);
    assert_eq!(shutdown_action(&ClientState::ReadingFrame, false), ShutdownAction::Close);
    assert_eq!(shutdown_action(&ClientState::Closing, true), ShutdownAction::Close);
}

#[test]
fn a_command_typed_as_words_is_taken_like_any_other() {
    let mut c = Client::new(1, 1, 0);
    c.receive(b"set k ", 1);
    assert_eq!(c.next_command(1024), Poll::Wait);
    c.receive(b"v\r\n*1\r\n$4\r\nPING\r\nget k\r\n", 2);
    assert_eq!(c.next_command(1024), Poll::Ready);
    assert_eq!(c.command(), Some(&command(&[b"set", b"k", b"v"])));
    c.complete(&Reply::Okay);
    assert_eq!(c.next_command(1024), Poll::Ready);
    assert_eq!(c.command(), Some(&command(&[b"PING"])));
    c.complete(&Reply::Status(b"PONG".to_vec()));
    assert_eq!(c.next_command(1024), Poll::Ready);
    assert_eq!(c.command(), Some(&command(&[b"get", b"k"])));
    c.complete(&Reply::Data(b"v".to_vec()));
    assert_eq!(c.pending_output(), b"+OK\r\n+PONG\r\n$1\r\nv\r\n");
    assert_eq!(*c.state(), ClientState::Idle);
}

#[test]
fn a_connection_that_cannot_be_handed_over_is_told_and_closed() {
    assert_eq!(worker_failure_reply(), Reply::Error(b"Server error: worker failed".to_vec()));

    let mut c = Client::new(1, 1, 0);
    c.receive(&frame(&[b"PING"]), 1);
    c.next_command(1024);
    c.complete(&Reply::Status(b"PONG".to_vec()));
    c.receive(&frame(&[b"BLPOP", b"q", b"0"]), 2);
    c.next_command(1024);
    c.block(vec![b"q".to_vec()], None);
    assert!(c.close_with(&worker_failure_reply()));
    assert_eq!(*c.state(), ClientState::Closing);
    assert!(c.command().is_none());
    assert_eq!(c.pending_output(), b"+PONG\r\n-ERR Server error: worker failed\r\n");
    assert!(!c.close_with(&worker_failure_reply()));
    assert_eq!(c.pending_output(), b"+PONG\r\n-ERR Server error: worker failed\r\n");
}
