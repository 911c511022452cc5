//! One connection: its buffers, the worker that owns it, and its state.
//! A client is plain data, so that it can be handed from one worker to
//! another as it is.

use vstd::prelude::*;
use vstd::string::StringSliceAdditionalSpecFns;
use crate::client_state::{next_state, due, ClientState, Event, EventView, StateView};
use crate::codec::{
    encode_reply, encoded_reply, intake_of, parse, take_frame, Command, FrameError, Intake,
    IntakeView, Parsed, Reply, ReplyView,
};
use crate::error_codes::ErrorKind;
use crate::octets::copy_bytes;

verus! {

/// Frames one after the other.
pub open spec fn concat(frames: Seq<Seq<u8>>) -> Seq<u8>
    decreases frames.len(),
{
    if frames.len() == 0 {
        Seq::empty()
    } else {
        concat(frames.drop_last()) + frames.last()
    }
}

/// Whether `frame` is one whole frame that carries `command` and nothing
/// besides.
pub open spec fn carries(frame: Seq<u8>, command: Seq<Seq<u8>>) -> bool {
    parse(frame) == (Parsed::Complete { command, consumed: frame.len() as int })
}

/// Replies on the wire, one after the other.
pub open spec fn encoded_replies(replies: Seq<ReplyView>) -> Seq<u8>
    decreases replies.len(),
{
    if replies.len() == 0 {
        Seq::empty()
    } else {
        encoded_replies(replies.drop_last()) + encoded_reply(replies.last())
    }
}

/// What a client is told when its frame is refused.
pub open spec fn refusal_message(e: FrameError) -> Seq<u8> {
    match e {
        FrameError::Malformed => "Protocol error: malformed frame".spec_bytes(),
        FrameError::FrameTooLarge => "Protocol error: frame too large".spec_bytes(),
    }
}

/// The reply that tells a client that its frame is refused.
pub open spec fn refusal(e: FrameError) -> ReplyView {
    ReplyView::Error(refusal_message(e))
}

/// A client as a value.
pub struct ClientView {
    pub id: u64,
    /// The worker that owns the connection.
    pub worker: u64,
    pub state: StateView,
    /// The bytes that were read and not yet taken as a command.
    pub inbox: Seq<u8>,
    /// The bytes that are queued and not yet written.
    pub outbox: Seq<u8>,
    /// The command that is being run or that waits.
    pub current: Option<Seq<Seq<u8>>>,
    /// When the connection was last heard of.
    pub last_activity: u64,
    /// Every frame taken from the connection so far, first taken first.
    pub frames: Seq<Seq<u8>>,
    /// The commands that those frames carried.
    pub accepted: Seq<Seq<Seq<u8>>>,
    /// Every reply queued for the connection so far, first queued first.
    pub replies: Seq<ReplyView>,
    /// How many of the commands have their reply.
    pub answered: nat,
    /// Every byte read from the connection so far.
    pub read: Seq<u8>,
    /// Every byte queued for the connection so far.
    pub written: Seq<u8>,
}

/// A connection that was accepted at `now` under the id `id` and given to
/// `worker`: idle, with nothing read and nothing queued.
pub open spec fn fresh_client(id: u64, worker: u64, now: u64) -> ClientView {
    ClientView {
        id,
        worker,
        state: StateView::Idle,
        inbox: Seq::empty(),
        outbox: Seq::empty(),
        current: None,
        last_activity: now,
        frames: Seq::empty(),
        accepted: Seq::empty(),
        replies: Seq::empty(),
        answered: 0,
        read: Seq::empty(),
        written: Seq::empty(),
    }
}

/// The views of clients.
pub open spec fn client_views(clients: Seq<Client>) -> Seq<ClientView> {
    Seq::new(clients.len(), |i: int| clients[i]@)
}

/// Whether a command is being run or waits.
pub open spec fn busy(state: StateView) -> bool {
    state is Executing || state is Blocked
}

/// The state a connection is in when it waits for its next command with
/// `inbox` as its read buffer.
pub open spec fn resting(inbox: Seq<u8>) -> StateView {
    if inbox.len() == 0 {
        StateView::Idle
    } else {
        StateView::ReadingFrame
    }
}

/// What holds of a client at all times. Each frame taken carried the
/// command at its place. While the connection is open, the bytes read are
/// the frames taken, in their order, followed by the read buffer; the
/// bytes queued are the replies, in their order; each command taken has
/// its reply, but for the one that is being run or waits; and that one is
/// the last taken.
pub open spec fn client_wf(v: ClientView) -> bool {
    &&& v.frames.len() == v.accepted.len()
    &&& forall|k: int| 0 <= k < v.frames.len() ==> carries(#[trigger] v.frames[k], v.accepted[k])
    &&& v.answered <= v.accepted.len()
    &&& v.answered <= v.replies.len() <= v.answered + 1
    &&& v.written == encoded_replies(v.replies)
    &&& v.outbox.len() <= v.written.len()
    &&& v.outbox == v.written.skip(v.written.len() - v.outbox.len())
    &&& busy(v.state) ==> v.current == Some(v.accepted.last())
    &&& !busy(v.state) ==> v.current is None
    &&& !(v.state is Closing) ==> {
        &&& v.replies.len() == v.answered
        &&& v.read == concat(v.frames) + v.inbox
        &&& v.accepted.len() == v.answered + if busy(v.state) {
            1nat
        } else {
            0nat
        }
    }
    &&& v.state is Idle ==> v.inbox.len() == 0
    &&& v.state is ReadingFrame ==> v.inbox.len() > 0
    &&& v.state is Closing ==> v.inbox.len() == 0
}

/// Replies leave a connection in the order in which its commands arrived.
/// Of an open connection, the bytes read so far are the frames taken, one
/// after the other, and what is left in the read buffer; the commands are
/// what those frames carried, in the same order; the bytes queued so far
/// are the replies, one after the other; the reply at each place is the one
/// that was queued while the command at that place was being run; and at
/// most one command, the last, is still without its reply.
pub proof fn lemma_replies_in_order(v: ClientView)
    requires
        client_wf(v),
        !(v.state is Closing),
    ensures
        v.read == concat(v.frames) + v.inbox,
        v.frames.len() == v.accepted.len(),
        forall|k: int| 0 <= k < v.frames.len() ==> carries(#[trigger] v.frames[k], v.accepted[k]),
        v.written == encoded_replies(v.replies),
        v.replies.len() <= v.accepted.len() <= v.replies.len() + 1,
        v.accepted.len() == v.replies.len() + 1 <==> busy(v.state),
        busy(v.state) ==> v.current == Some(v.accepted[v.replies.len() as int]),
{
}

/// What came of looking for the next command of a connection.
#[derive(Clone, Copy, Debug, PartialEq, Eq)]
pub enum Poll {
    /// A command was taken and is to be run.
    Ready,
    /// More bytes are needed.
    Wait,
    /// The frame was refused, the client was told, and the connection is
    /// to be closed.
    Refused(FrameError),
    /// The connection is closing, or its last command has no reply yet.
    Busy,
}

/// A client after bytes were read from its socket at `now`. A closing
/// connection takes none.
pub open spec fn after_receive(v: ClientView, bytes: Seq<u8>, now: u64) -> ClientView {
    if v.state is Closing {
        v
    } else {
        ClientView {
            inbox: v.inbox + bytes,
            read: v.read + bytes,
            last_activity: now,
            state: if bytes.len() > 0 {
                next_state(v.state, EventView::BytesArrived)->Some_0
            } else {
                v.state
            },
            ..v
        }
    }
}

/// What comes of looking for the next command of a client, where a frame
/// may have `max` bytes at most.
pub open spec fn poll_of(v: ClientView, max: nat) -> Poll {
    if v.state is Idle {
        Poll::Wait
    } else if !(v.state is ReadingFrame) {
        Poll::Busy
    } else {
        match intake_of(v.inbox, max) {
            IntakeView::Accept { .. } => Poll::Ready,
            IntakeView::Wait => Poll::Wait,
            IntakeView::Refuse(e) => Poll::Refused(e),
        }
    }
}

/// A client with one more reply queued.
pub open spec fn with_reply(v: ClientView, reply: ReplyView) -> ClientView {
    ClientView {
        outbox: v.outbox + encoded_reply(reply),
        replies: v.replies.push(reply),
        written: v.written + encoded_reply(reply),
        ..v
    }
}

/// A client after its next command was looked for. A whole frame is taken
/// out of the read buffer and becomes the command to run. A frame that is
/// refused closes the connection: the client is told why, and what is left
/// in the read buffer is dropped.
pub open spec fn after_poll(v: ClientView, max: nat) -> ClientView {
    if !(v.state is ReadingFrame) {
        v
    } else {
        match intake_of(v.inbox, max) {
            IntakeView::Accept { command, consumed } => ClientView {
                state: StateView::Executing,
                inbox: v.inbox.skip(consumed),
                current: Some(command),
                frames: v.frames.push(v.inbox.take(consumed)),
                accepted: v.accepted.push(command),
                ..v
            },
            IntakeView::Wait => v,
            IntakeView::Refuse(e) => ClientView {
                state: StateView::Closing,
                inbox: Seq::empty(),
                ..with_reply(v, refusal(e))
            },
        }
    }
}

/// A client after the command that it was running got its reply; a client
/// that was running none is as it was.
pub open spec fn after_reply(v: ClientView, reply: ReplyView) -> ClientView {
    if v.state is Executing {
        ClientView {
            state: resting(v.inbox),
            current: None,
            answered: v.answered + 1,
            ..with_reply(v, reply)
        }
    } else {
        v
    }
}

/// A client after the command that it was running was made to wait; a
/// client that was running none is as it was.
pub open spec fn after_block(v: ClientView, resources: Seq<Seq<u8>>, deadline: Option<u64>) -> ClientView {
    if v.state is Executing {
        ClientView { state: StateView::Blocked { resources, deadline }, ..v }
    } else {
        v
    }
}

/// A client after a wake-up: a blocked one runs its command again, any
/// other is as it was.
pub open spec fn after_wake(v: ClientView) -> ClientView {
    if v.state is Blocked {
        ClientView { state: StateView::Executing, ..v }
    } else {
        v
    }
}

/// Whether a client is blocked with a deadline that has been reached at
/// `now`.
pub open spec fn times_out(v: ClientView, now: u64) -> bool {
    v.state matches StateView::Blocked { deadline, .. } && due(deadline, now)
}

/// A client after it was told at `now` that its wait is over time: one
/// that is blocked with a deadline that has been reached gets the empty
/// reply and goes on to its next command, any other is as it was.
pub open spec fn after_time_out(v: ClientView, now: u64) -> ClientView {
    if times_out(v, now) {
        after_reply(ClientView { state: StateView::Executing, ..v }, ReplyView::Nil)
    } else {
        v
    }
}

/// A client after its socket was closed or failed.
pub open spec fn after_disconnect(v: ClientView) -> ClientView {
    ClientView { state: StateView::Closing, inbox: Seq::empty(), current: None, ..v }
}

/// A client after it was told `reply` and closed by the server: what is
/// left in the read buffer is dropped and the command that was being run or
/// waited is given up. A client that is closing already is as it was.
pub open spec fn after_close_with(v: ClientView, reply: ReplyView) -> ClientView {
    if v.state is Closing {
        v
    } else {
        ClientView {
            state: StateView::Closing,
            inbox: Seq::empty(),
            current: None,
            ..with_reply(v, reply)
        }
    }
}

/// A client after the command that it was running failed with an error of
/// the kind `kind`: the client is told `message`, and the connection is
/// closed if that kind of error closes connections, and goes on to its next
/// command if not. A client that was running no command is as it was, and
/// so is any client where the kind is one that clients are not told of.
pub open spec fn after_failure(v: ClientView, kind: ErrorKind, message: Seq<u8>) -> ClientView {
    if !(v.state is Executing) || !kind.spec_sends_reply() {
        v
    } else if kind.spec_closes_connection() {
        after_close_with(v, ReplyView::Error(message))
    } else {
        after_reply(v, ReplyView::Error(message))
    }
}

/// What a client is told when its worker failed and no other could take
/// the connection over.
pub open spec fn worker_failure() -> ReplyView {
    ReplyView::Error("Server error: worker failed".spec_bytes())
}

/// How many queued bytes are dropped when `n` are reported as written.
pub open spec fn dropped_of(v: ClientView, n: nat) -> nat {
    if n <= v.outbox.len() {
        n
    } else {
        v.outbox.len()
    }
}

/// A client after `n` of its queued bytes were written to the socket.
pub open spec fn after_written(v: ClientView, n: nat) -> ClientView {
    ClientView { outbox: v.outbox.skip(dropped_of(v, n) as int), ..v }
}


/// A client after it was served `replies`, one after the other: each time
/// its next command was looked for, and the command then got the next of
/// the replies.
pub open spec fn served(v: ClientView, replies: Seq<ReplyView>, max: nat) -> ClientView
    decreases replies.len(),
{
    if replies.len() == 0 {
        v
    } else {
        after_reply(after_poll(served(v, replies.drop_last(), max), max), replies.last())
    }
}

proof fn lemma_concat_front(frames: Seq<Seq<u8>>)
    requires
        frames.len() > 0,
    ensures
        concat(frames) == frames[0] + concat(frames.drop_first()),
    decreases frames.len(),
{
    if frames.len() == 1 {
        assert(frames.drop_last() =~= Seq::<Seq<u8>>::empty());
        assert(frames.drop_first() =~= Seq::<Seq<u8>>::empty());
        assert(concat(frames) =~= frames[0] + concat(frames.drop_first()));
    } else {
        let back = frames.drop_last();
        lemma_concat_front(back);
        assert(back[0] == frames[0]);
        assert(back.drop_first() =~= frames.drop_first().drop_last());
        assert(frames.drop_first().last() == frames.last());
        assert(concat(frames) =~= frames[0] + concat(frames.drop_first()));
    }
}

proof fn lemma_served_prefix(
    v: ClientView,
    frames: Seq<Seq<u8>>,
    commands: Seq<Seq<Seq<u8>>>,
    replies: Seq<ReplyView>,
    now: u64,
    max: nat,
    k: int,
)
    requires
        client_wf(v),
        v.state is Idle,
        frames.len() == commands.len(),
        frames.len() == replies.len(),
        forall|i: int|
            0 <= i < frames.len() ==> carries(#[trigger] frames[i], commands[i]) && frames[i].len()
                <= max,
        0 <= k <= frames.len(),
    ensures
        ({
            let end = served(after_receive(v, concat(frames), now), replies.take(k), max);
            &&& client_wf(end)
            &&& end.inbox == concat(frames.skip(k))
            &&& end.state == resting(end.inbox)
            &&& end.accepted == v.accepted + commands.take(k)
            &&& end.frames == v.frames + frames.take(k)
            &&& end.replies == v.replies + replies.take(k)
            &&& end.written == v.written + encoded_replies(replies.take(k))
            &&& end.outbox == v.outbox + encoded_replies(replies.take(k))
            &&& end.read == v.read + concat(frames)
        }),
    decreases k,
{
    let start = after_receive(v, concat(frames), now);
    lemma_receive_keeps_wf(v, concat(frames), now);
    if k == 0 {
        assert(replies.take(0) =~= Seq::<ReplyView>::empty());
        assert(frames.skip(0) =~= frames);
        assert(start.inbox =~= concat(frames));
        assert(start.accepted =~= v.accepted + commands.take(0));
        assert(start.frames =~= v.frames + frames.take(0));
        assert(start.replies =~= v.replies + replies.take(0));
        assert(start.written =~= v.written + encoded_replies(replies.take(0)));
        assert(start.outbox =~= v.outbox + encoded_replies(replies.take(0)));
    } else {
        lemma_served_prefix(v, frames, commands, replies, now, max, k - 1);
        assert(replies.take(k).drop_last() =~= replies.take(k - 1));
        assert(replies.take(k).last() == replies[k - 1]);
        let before = served(start, replies.take(k - 1), max);
        let frame = frames[k - 1];
        let rest = concat(frames.skip(k));
        lemma_concat_front(frames.skip(k - 1));
        assert(frames.skip(k - 1)[0] == frame);
        assert(frames.skip(k - 1).drop_first() =~= frames.skip(k));
        assert(carries(frame, commands[k - 1]));
        crate::codec::lemma_parse_extended(frame, commands[k - 1], rest);
        assert(before.inbox == frame + rest);
        assert(before.state is ReadingFrame);
        let polled = after_poll(before, max);
        lemma_poll_keeps_wf(before, max);
        assert((frame + rest).skip(frame.len() as int) =~= rest);
        assert((frame + rest).take(frame.len() as int) =~= frame);
        assert(polled.state is Executing);
        let end = after_reply(polled, replies[k - 1]);
        lemma_reply_keeps_wf(polled, replies[k - 1]);
        lemma_push_reply(replies.take(k - 1), replies[k - 1]);
        assert(replies.take(k) =~= replies.take(k - 1).push(replies[k - 1]));
        assert(end.accepted =~= v.accepted + commands.take(k));
        assert(end.frames =~= v.frames + frames.take(k));
        assert(end.replies =~= v.replies + replies.take(k));
        assert(end.written =~= v.written + encoded_replies(replies.take(k)));
        assert(end.outbox =~= v.outbox + encoded_replies(replies.take(k)));
    }
}

/// Replies are produced in the order in which the frames were sent. An
/// idle connection reads any number of whole frames, each within the limit,
/// all at once; as often as there are frames, its next command is looked
/// for and then answered. Then the commands taken are those that the
/// frames carried, in the order of the frames; the replies queued are those
/// given, in the order given, so that the reply at each place answers the
/// frame at that place; and the connection is idle again, with nothing left
/// to read.
pub proof fn lemma_frames_are_answered_in_order(
    v: ClientView,
    frames: Seq<Seq<u8>>,
    commands: Seq<Seq<Seq<u8>>>,
    replies: Seq<ReplyView>,
    now: u64,
    max: nat,
)
    requires
        client_wf(v),
        v.state is Idle,
        frames.len() == commands.len(),
        frames.len() == replies.len(),
        forall|i: int|
            0 <= i < frames.len() ==> carries(#[trigger] frames[i], commands[i]) && frames[i].len()
                <= max,
    ensures
        ({
            let end = served(after_receive(v, concat(frames), now), replies, max);
            &&& client_wf(end)
            &&& end.state is Idle
            &&& end.inbox.len() == 0
            &&& end.accepted == v.accepted + commands
            &&& end.replies == v.replies + replies
            &&& end.written == v.written + encoded_replies(replies)
            &&& end.outbox == v.outbox + encoded_replies(replies)
        }),
{
    let n = frames.len() as int;
    lemma_served_prefix(v, frames, commands, replies, now, max, n);
    assert(replies.take(n) =~= replies);
    assert(commands.take(n) =~= commands);
    assert(frames.skip(n) =~= Seq::<Seq<u8>>::empty());
}

proof fn lemma_receive_keeps_wf(v: ClientView, bytes: Seq<u8>, now: u64)
    requires
        client_wf(v),
    ensures
        client_wf(after_receive(v, bytes, now)),
{
    let next = after_receive(v, bytes, now);
    if !(v.state is Closing) {
        assert(next.read =~= concat(next.frames) + next.inbox);
    }
}

proof fn lemma_with_reply_keeps_queue(v: ClientView, reply: ReplyView)
    requires
        client_wf(v),
    ensures
        with_reply(v, reply).written == encoded_replies(with_reply(v, reply).replies),
        with_reply(v, reply).outbox.len() <= with_reply(v, reply).written.len(),
        with_reply(v, reply).outbox == with_reply(v, reply).written.skip(
            with_reply(v, reply).written.len() - with_reply(v, reply).outbox.len(),
        ),
{
    lemma_push_reply(v.replies, reply);
    lemma_suffix_grows(v.written, v.outbox, encoded_reply(reply));
}

proof fn lemma_poll_keeps_wf(v: ClientView, max: nat)
    requires
        client_wf(v),
    ensures
        client_wf(after_poll(v, max)),
{
    let next = after_poll(v, max);
    if v.state is ReadingFrame {
        match intake_of(v.inbox, max) {
            IntakeView::Accept { command, consumed } => {
                crate::codec::lemma_parsed_round_trip(v.inbox);
                let frame = v.inbox.take(consumed);
                lemma_push_frame(v.frames, frame);
                assert(v.inbox =~= frame + v.inbox.skip(consumed));
                assert(next.read =~= concat(next.frames) + next.inbox);
                assert forall|k: int| 0 <= k < next.frames.len() implies carries(
                    #[trigger] next.frames[k],
                    next.accepted[k],
                ) by {
                    if k < v.frames.len() {
                        assert(carries(v.frames[k], v.accepted[k]));
                    }
                }
            },
            IntakeView::Wait => {},
            IntakeView::Refuse(e) => {
                lemma_with_reply_keeps_queue(v, refusal(e));
            },
        }
    }
}

proof fn lemma_reply_keeps_wf(v: ClientView, reply: ReplyView)
    requires
        client_wf(v),
    ensures
        client_wf(after_reply(v, reply)),
{
    lemma_with_reply_keeps_queue(v, reply);
}

proof fn lemma_close_with_keeps_wf(v: ClientView, reply: ReplyView)
    requires
        client_wf(v),
    ensures
        client_wf(after_close_with(v, reply)),
{
    lemma_with_reply_keeps_queue(v, reply);
}

proof fn lemma_time_out_keeps_wf(v: ClientView, now: u64)
    requires
        client_wf(v),
    ensures
        client_wf(after_time_out(v, now)),
{
    if times_out(v, now) {
        lemma_reply_keeps_wf(ClientView { state: StateView::Executing, ..v }, ReplyView::Nil);
    }
}

proof fn lemma_written_keeps_wf(v: ClientView, n: nat)
    requires
        client_wf(v),
    ensures
        client_wf(after_written(v, n)),
{
    let next = after_written(v, n);
    assert(next.outbox =~= next.written.skip(next.written.len() - next.outbox.len()));
}

/// Whatever happens to a client, it stays as a client has to be: each of
/// the steps that a worker takes with a connection keeps what holds of a
/// client at all times.
pub proof fn lemma_steps_keep_client_wf(
    v: ClientView,
    bytes: Seq<u8>,
    now: u64,
    max: nat,
    reply: ReplyView,
    resources: Seq<Seq<u8>>,
    deadline: Option<u64>,
    kind: ErrorKind,
    n: nat,
)
    requires
        client_wf(v),
    ensures
        client_wf(after_receive(v, bytes, now)),
        client_wf(after_poll(v, max)),
        client_wf(after_reply(v, reply)),
        client_wf(after_block(v, resources, deadline)),
        client_wf(after_wake(v)),
        client_wf(after_time_out(v, now)),
        client_wf(after_disconnect(v)),
        client_wf(after_close_with(v, reply)),
        client_wf(after_failure(v, kind, bytes)),
        client_wf(after_written(v, n)),
{
    lemma_receive_keeps_wf(v, bytes, now);
    lemma_poll_keeps_wf(v, max);
    lemma_reply_keeps_wf(v, reply);
    lemma_time_out_keeps_wf(v, now);
    lemma_close_with_keeps_wf(v, reply);
    lemma_close_with_keeps_wf(v, ReplyView::Error(bytes));
    lemma_reply_keeps_wf(v, ReplyView::Error(bytes));
    lemma_written_keeps_wf(v, n);
}

proof fn lemma_suffix_grows(written: Seq<u8>, outbox: Seq<u8>, more: Seq<u8>)
    requires
        outbox.len() <= written.len(),
        outbox == written.skip(written.len() - outbox.len()),
    ensures
        outbox + more == (written + more).skip((written + more).len() - (outbox + more).len()),
{
    assert(outbox + more =~= (written + more).skip(
        (written + more).len() - (outbox + more).len(),
    ));
}

proof fn lemma_push_frame(frames: Seq<Seq<u8>>, frame: Seq<u8>)
    ensures
        concat(frames.push(frame)) == concat(frames) + frame,
{
    assert(frames.push(frame).drop_last() =~= frames);
}

proof fn lemma_push_reply(replies: Seq<ReplyView>, r: ReplyView)
    ensures
        encoded_replies(replies.push(r)) == encoded_replies(replies) + encoded_reply(r),
{
    assert(replies.push(r).drop_last() =~= replies);
}

/// One connection.
pub struct Client {
    id: u64,
    worker: u64,
    state: ClientState,
    inbox: Vec<u8>,
    outbox: Vec<u8>,
    current: Option<Command>,
    last_activity: u64,
    frames: Ghost<Seq<Seq<u8>>>,
    accepted: Ghost<Seq<Seq<Seq<u8>>>>,
    replies: Ghost<Seq<ReplyView>>,
    answered: Ghost<nat>,
    read: Ghost<Seq<u8>>,
    written: Ghost<Seq<u8>>,
}

impl View for Client {
    type V = ClientView;

    closed spec fn view(&self) -> ClientView {
        ClientView {
            id: self.id,
            worker: self.worker,
            state: self.state@,
            inbox: self.inbox@,
            outbox: self.outbox@,
            current: match self.current {
                Some(c) => Some(c@),
                None => None,
            },
            last_activity: self.last_activity,
            frames: self.frames@,
            accepted: self.accepted@,
            replies: self.replies@,
            answered: self.answered@,
            read: self.read@,
            written: self.written@,
        }
    }
}

impl Client {
    /// What holds of a client at all times.
    pub open spec fn wf(&self) -> bool {
        client_wf(self@)
    }

    /// A connection that was accepted at `now` and given to `worker`.
    pub fn new(id: u64, worker: u64, now: u64) -> (c: Client)
        ensures
            c.wf(),
            c@ == fresh_client(id, worker, now),
    {
        let c = Client {
            id,
            worker,
            state: ClientState::Idle,
            inbox: Vec::new(),
            outbox: Vec::new(),
            current: None,
            last_activity: now,
            frames: Ghost(Seq::empty()),
            accepted: Ghost(Seq::empty()),
            replies: Ghost(Seq::empty()),
            answered: Ghost(0),
            read: Ghost(Seq::empty()),
            written: Ghost(Seq::empty()),
        };
        assert(c@.read =~= concat(c@.frames) + c@.inbox);
        assert(c@.outbox =~= c@.written.skip(0));
        c
    }

    /// The connection's id.
    pub fn id(&self) -> (id: u64)
        ensures
            id == self@.id,
    {
        self.id
    }

    /// The worker that owns the connection.
    pub fn worker(&self) -> (w: u64)
        ensures
            w == self@.worker,
    {
        self.worker
    }

    /// The connection's state.
    pub fn state(&self) -> (s: &ClientState)
        ensures
            s@ == self@.state,
    {
        &self.state
    }

    /// When the connection was last heard of.
    pub fn last_activity(&self) -> (t: u64)
        ensures
            t == self@.last_activity,
    {
        self.last_activity
    }

    /// The command that is being run or that waits.
    pub fn command(&self) -> (c: Option<&Command>)
        ensures
            match c {
                Some(c) => self@.current == Some(c@),
                None => self@.current is None,
            },
    {
        self.current.as_ref()
    }

    /// The bytes that are queued and not yet written.
    pub fn pending_output(&self) -> (out: &[u8])
        ensures
            out@ == self@.outbox,
    {
        self.outbox.as_slice()
    }

    /// Gives the connection to another worker.
    pub fn set_worker(&mut self, worker: u64)
        ensures
            final(self)@ == (ClientView { worker, ..old(self)@ }),
    {
        self.worker = worker;
    }

    /// Takes bytes that were read from the socket at `now` into the read
    /// buffer. A closing connection takes none. Returns whether the bytes
    /// were taken.
    pub fn receive(&mut self, bytes: &[u8], now: u64) -> (taken: bool)
        requires
            old(self).wf(),
        ensures
            final(self).wf(),
            taken == !(old(self)@.state is Closing),
            final(self)@ == after_receive(old(self)@, bytes@, now),
    {
        if self.state.is_closing() {
            return false;
        }
        self.last_activity = now;
        if bytes.len() > 0 {
            self.inbox.extend_from_slice(bytes);
            self.state.apply(Event::BytesArrived);
        }
        proof {
            assert(self.inbox@ =~= old(self)@.inbox + bytes@);
            self.read@ = old(self)@.read + bytes@;
            assert(self@.read =~= concat(self@.frames) + self@.inbox);
        }
        true
    }

    /// Looks for the next command at the front of the read buffer, where a
    /// frame may have `max_frame` bytes at most. A whole frame is taken out
    /// of the buffer and becomes the command to run. A frame that is
    /// refused closes the connection: the client is told why, and what is
    /// left in the read buffer is dropped.
    pub fn next_command(&mut self, max_frame: usize) -> (poll: Poll)
        requires
            old(self).wf(),
        ensures
            final(self).wf(),
            poll == poll_of(old(self)@, max_frame as nat),
            final(self)@ == after_poll(old(self)@, max_frame as nat),
    {
        if self.state.is_idle() {
            return Poll::Wait;
        }
        if !self.state.is_reading() {
            return Poll::Busy;
        }
        match take_frame(self.inbox.as_slice(), max_frame) {
            Intake::Wait => Poll::Wait,
            Intake::Accept { command, consumed } => {
                proof {
                    lemma_poll_keeps_wf(old(self)@, max_frame as nat);
                    self.frames@ = self.frames@.push(self.inbox@.take(consumed as int));
                    self.accepted@ = self.accepted@.push(command@);
                }
                let rest = self.inbox.split_off(consumed);
                assert(rest@ =~= old(self)@.inbox.skip(consumed as int));
                self.inbox = rest;
                self.current = Some(command);
                self.state.apply(Event::FrameComplete);
                Poll::Ready
            },
            Intake::Refuse(e) => {
                proof {
                    lemma_poll_keeps_wf(old(self)@, max_frame as nat);
                }
                let reply = refusal_reply(e);
                self.queue(&reply);
                self.inbox = Vec::new();
                self.state.apply(Event::FrameRefused);
                assert(self@.inbox =~= Seq::<u8>::empty());
                Poll::Refused(e)
            },
        }
    }

    fn queue(&mut self, reply: &Reply)
        requires
            old(self)@.written == encoded_replies(old(self)@.replies),
            old(self)@.outbox.len() <= old(self)@.written.len(),
            old(self)@.outbox == old(self)@.written.skip(
                old(self)@.written.len() - old(self)@.outbox.len(),
            ),
        ensures
            final(self)@ == with_reply(old(self)@, reply@),
            final(self)@.written == encoded_replies(final(self)@.replies),
            final(self)@.outbox.len() <= final(self)@.written.len(),
            final(self)@.outbox == final(self)@.written.skip(
                final(self)@.written.len() - final(self)@.outbox.len(),
            ),
    {
        let mut bytes = encode_reply(reply);
        self.outbox.append(&mut bytes);
        proof {
            lemma_push_reply(self.replies@, reply@);
            self.replies@ = self.replies@.push(reply@);
            self.written@ = self.written@ + encoded_reply(reply@);
            assert(self@.outbox =~= self@.written.skip(self@.written.len() - self@.outbox.len()));
        }
    }

    /// Queues the reply to the command that is being run, which is then
    /// done: the connection goes on to its next command. Returns whether a
    /// command was being run; if none was, nothing changes.
    pub fn complete(&mut self, reply: &Reply) -> (done: bool)
        requires
            old(self).wf(),
        ensures
            final(self).wf(),
            done == (old(self)@.state is Executing),
            final(self)@ == after_reply(old(self)@, reply@),
            done ==> old(self)@.current == Some(
                old(self)@.accepted[old(self)@.replies.len() as int],
            ),
    {
        if !self.state.is_executing() {
            return false;
        }
        self.queue(reply);
        self.current = None;
        self.state.apply(Event::Replied);
        if self.inbox.len() > 0 {
            self.state.apply(Event::BytesArrived);
        }
        proof {
            self.answered@ = self.answered@ + 1;
        }
        true
    }

    /// Makes the command that is being run wait for one of `resources`,
    /// until `deadline` if there is one. Returns whether a command was
    /// being run; if none was, nothing changes.
    pub fn block(&mut self, resources: Vec<Vec<u8>>, deadline: Option<u64>) -> (blocked: bool)
        requires
            old(self).wf(),
        ensures
            final(self).wf(),
            blocked == (old(self)@.state is Executing),
            final(self)@ == after_block(
                old(self)@,
                Seq::new(resources@.len(), |i: int| resources@[i]@),
                deadline,
            ),
    {
        if !self.state.is_executing() {
            return false;
        }
        self.state.apply(Event::MustWait { resources, deadline });
        true
    }

    /// Ends the wait of a blocked connection because a resource changed:
    /// its command is to be run again. A connection that is not blocked is
    /// left as it is. Returns whether the connection was blocked.
    pub fn wake(&mut self) -> (woken: bool)
        requires
            old(self).wf(),
        ensures
            final(self).wf(),
            woken == (old(self)@.state is Blocked),
            final(self)@ == after_wake(old(self)@),
    {
        self.state.apply(Event::WakeUp)
    }

    /// Ends the wait of a blocked connection whose deadline has been
    /// reached at `now`: the client gets the empty reply, and the
    /// connection goes on to its next command. Any other connection is
    /// left as it is. Returns whether the wait was ended.
    pub fn time_out(&mut self, now: u64) -> (ended: bool)
        requires
            old(self).wf(),
        ensures
            final(self).wf(),
            ended == times_out(old(self)@, now),
            final(self)@ == after_time_out(old(self)@, now),
    {
        if !self.state.apply(Event::DeadlinePassed { now }) {
            return false;
        }
        let done = self.complete(&Reply::Nil);
        assert(done);
        true
    }

    /// Notes that the socket was closed or failed. The command that was
    /// being run or waited is given up, and what is left in the read buffer
    /// is dropped. Returns whether the connection was open until now.
    pub fn disconnect(&mut self) -> (closed: bool)
        requires
            old(self).wf(),
        ensures
            final(self).wf(),
            closed == !(old(self)@.state is Closing),
            final(self)@ == after_disconnect(old(self)@),
    {
        let closed = self.state.apply(Event::Disconnected);
        self.inbox = Vec::new();
        self.current = None;
        assert(self@.inbox =~= Seq::<u8>::empty());
        closed
    }

    /// The command that is being run failed with an error of the kind
    /// `kind`: the client is told `message`; after a protocol error the
    /// connection is closed, after any other it goes on to its next
    /// command. Returns whether the client was told; it is not if no command
    /// was being run or if the kind is one that clients are not told of,
    /// and then nothing changes.
    pub fn fail(&mut self, kind: ErrorKind, message: &[u8]) -> (told: bool)
        requires
            old(self).wf(),
        ensures
            final(self).wf(),
            told == (old(self)@.state is Executing && kind.spec_sends_reply()),
            final(self)@ == after_failure(old(self)@, kind, message@),
    {
        if !self.state.is_executing() || !kind.sends_reply() {
            return false;
        }
        let reply = Reply::Error(copy_bytes(message));
        if kind.closes_connection() {
            self.close_with(&reply);
        } else {
            self.complete(&reply);
        }
        true
    }

    /// Closes the connection from the server's side with a last reply, as
    /// when its worker failed and no other could take it over. Returns
    /// whether the connection was open until now; if not, nothing changes.
    pub fn close_with(&mut self, reply: &Reply) -> (closed: bool)
        requires
            old(self).wf(),
        ensures
            final(self).wf(),
            closed == !(old(self)@.state is Closing),
            final(self)@ == after_close_with(old(self)@, reply@),
    {
        if self.state.is_closing() {
            return false;
        }
        self.queue(reply);
        self.state.apply(Event::Disconnected);
        self.inbox = Vec::new();
        self.current = None;
        assert(self@.inbox =~= Seq::<u8>::empty());
        true
    }

    /// Notes that the first `n` queued bytes were written to the socket,
    /// or all of them if there are fewer. Returns how many were dropped
    /// from the queue.
    pub fn written(&mut self, n: usize) -> (dropped: usize)
        requires
            old(self).wf(),
        ensures
            final(self).wf(),
            dropped == dropped_of(old(self)@, n as nat),
            final(self)@ == after_written(old(self)@, n as nat),
    {
        let k: usize = if n <= self.outbox.len() {
            n
        } else {
            self.outbox.len()
        };
        let rest = self.outbox.split_off(k);
        self.outbox = rest;
        assert(self@.outbox =~= old(self)@.outbox.skip(k as int));
        assert(self@.outbox =~= self@.written.skip(self@.written.len() - self@.outbox.len()));
        k
    }
}

/// The reply that tells a client that its worker failed and no other could
/// take the connection over.
pub fn worker_failure_reply() -> (reply: Reply)
    ensures
        reply@ == worker_failure(),
{
    Reply::Error(copy_bytes("Server error: worker failed".as_bytes()))
}

/// The reply that tells a client that its frame is refused.
pub fn refusal_reply(e: FrameError) -> (reply: Reply)
    ensures
        reply@ == refusal(e),
{
    match e {
        FrameError::Malformed => Reply::Error(
            copy_bytes("Protocol error: malformed frame".as_bytes()),
        ),
        FrameError::FrameTooLarge => Reply::Error(
            copy_bytes("Protocol error: frame too large".as_bytes()),
        ),
    }
}

} // verus!
