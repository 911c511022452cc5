//! The states a connection goes through, and what moves it from one to the
//! next.

use vstd::prelude::*;

verus! {

/// The state of one connection.
#[derive(Debug, PartialEq, Eq)]
pub enum ClientState {
    /// Nothing is pending.
    Idle,
    /// Part of a frame has arrived.
    ReadingFrame,
    /// A command is being run.
    Executing,
    /// The command waits for one of `resources` to change, until
    /// `deadline` if there is one.
    Blocked { resources: Vec<Vec<u8>>, deadline: Option<u64> },
    /// The connection is being closed. Nothing leads out of this state.
    Closing,
}

/// The state of one connection, as a value.
pub enum StateView {
    Idle,
    ReadingFrame,
    Executing,
    Blocked { resources: Seq<Seq<u8>>, deadline: Option<u64> },
    Closing,
}

impl View for ClientState {
    type V = StateView;

    open spec fn view(&self) -> StateView {
        match self {
            ClientState::Idle => StateView::Idle,
            ClientState::ReadingFrame => StateView::ReadingFrame,
            ClientState::Executing => StateView::Executing,
            ClientState::Blocked { resources, deadline } => StateView::Blocked {
                resources: Seq::new(resources@.len(), |i: int| resources@[i]@),
                deadline: *deadline,
            },
            ClientState::Closing => StateView::Closing,
        }
    }
}

/// What can happen to a connection.
#[derive(Debug, PartialEq, Eq)]
pub enum Event {
    /// Bytes were read from the socket.
    BytesArrived,
    /// The read buffer holds a whole frame.
    FrameComplete,
    /// The read buffer holds bytes that are no frame.
    FrameRefused,
    /// The command was run and its reply queued.
    Replied,
    /// The command has to wait for one of `resources`.
    MustWait { resources: Vec<Vec<u8>>, deadline: Option<u64> },
    /// The registry reports that a watched resource changed.
    WakeUp,
    /// The registry reports at `now` that the wait is over time.
    DeadlinePassed { now: u64 },
    /// The socket was closed or failed.
    Disconnected,
}

/// What can happen to a connection, as a value.
pub enum EventView {
    BytesArrived,
    FrameComplete,
    FrameRefused,
    Replied,
    MustWait { resources: Seq<Seq<u8>>, deadline: Option<u64> },
    WakeUp,
    DeadlinePassed { now: u64 },
    Disconnected,
}

impl View for Event {
    type V = EventView;

    open spec fn view(&self) -> EventView {
        match self {
            Event::BytesArrived => EventView::BytesArrived,
            Event::FrameComplete => EventView::FrameComplete,
            Event::FrameRefused => EventView::FrameRefused,
            Event::Replied => EventView::Replied,
            Event::MustWait { resources, deadline } => EventView::MustWait {
                resources: Seq::new(resources@.len(), |i: int| resources@[i]@),
                deadline: *deadline,
            },
            Event::WakeUp => EventView::WakeUp,
            Event::DeadlinePassed { now } => EventView::DeadlinePassed { now: *now },
            Event::Disconnected => EventView::Disconnected,
        }
    }
}

/// Whether a deadline has been reached at `now`.
pub open spec fn due(deadline: Option<u64>, now: u64) -> bool {
    deadline matches Some(d) && d <= now
}

/// The state that `event` leads to from `state`, or `None` where the event
/// has no place in that state and is ignored.
pub open spec fn next_state(state: StateView, event: EventView) -> Option<StateView> {
    match (state, event) {
        (StateView::Closing, _) => None,
        (_, EventView::Disconnected) => Some(StateView::Closing),
        (StateView::Idle, EventView::BytesArrived) => Some(StateView::ReadingFrame),
        (s, EventView::BytesArrived) => Some(s),
        (StateView::ReadingFrame, EventView::FrameComplete) => Some(StateView::Executing),
        (StateView::ReadingFrame, EventView::FrameRefused) => Some(StateView::Closing),
        (StateView::Executing, EventView::Replied) => Some(StateView::Idle),
        (StateView::Executing, EventView::MustWait { resources, deadline }) => Some(
            StateView::Blocked { resources, deadline },
        ),
        (StateView::Blocked { .. }, EventView::WakeUp) => Some(StateView::Executing),
        (StateView::Blocked { deadline, .. }, EventView::DeadlinePassed { now }) => if due(
            deadline,
            now,
        ) {
            Some(StateView::Executing)
        } else {
            None
        },
        _ => None,
    }
}

impl ClientState {
    /// Moves to the state that `event` leads to. Returns whether the event
    /// had a place in the state; if not, the state is as it was.
    pub fn apply(&mut self, event: Event) -> (taken: bool)
        ensures
            taken == next_state(old(self)@, event@) is Some,
            final(self)@ == match next_state(old(self)@, event@) {
                Some(s) => s,
                None => old(self)@,
            },
    {
        let taken = match (&*self, &event) {
            (ClientState::Closing, _) => false,
            (_, Event::Disconnected) => true,
            (_, Event::BytesArrived) => true,
            (ClientState::ReadingFrame, Event::FrameComplete) => true,
            (ClientState::ReadingFrame, Event::FrameRefused) => true,
            (ClientState::Executing, Event::Replied) => true,
            (ClientState::Executing, Event::MustWait { .. }) => true,
            (ClientState::Blocked { .. }, Event::WakeUp) => true,
            (ClientState::Blocked { deadline, .. }, Event::DeadlinePassed { now }) => {
                match deadline {
                    Some(d) => *d <= *now,
                    None => false,
                }
            },
            _ => false,
        };
        if !taken {
            return false;
        }
        match event {
            Event::Disconnected | Event::FrameRefused => {
                *self = ClientState::Closing;
            },
            Event::BytesArrived => {
                if self.is_idle() {
                    *self = ClientState::ReadingFrame;
                }
            },
            Event::FrameComplete | Event::WakeUp | Event::DeadlinePassed { .. } => {
                *self = ClientState::Executing;
            },
            Event::Replied => {
                *self = ClientState::Idle;
            },
            Event::MustWait { resources, deadline } => {
                *self = ClientState::Blocked { resources, deadline };
            },
        }
        true
    }

    /// Whether nothing is pending.
    pub fn is_idle(&self) -> (b: bool)
        ensures
            b == (self@ is Idle),
    {
        match self {
            ClientState::Idle => true,
            _ => false,
        }
    }

    /// Whether part of a frame has arrived.
    pub fn is_reading(&self) -> (b: bool)
        ensures
            b == (self@ is ReadingFrame),
    {
        match self {
            ClientState::ReadingFrame => true,
            _ => false,
        }
    }

    /// Whether a command is being run.
    pub fn is_executing(&self) -> (b: bool)
        ensures
            b == (self@ is Executing),
    {
        match self {
            ClientState::Executing => true,
            _ => false,
        }
    }

    /// Whether the command waits for a resource.
    pub fn is_blocked(&self) -> (b: bool)
        ensures
            b == (self@ is Blocked),
    {
        match self {
            ClientState::Blocked { .. } => true,
            _ => false,
        }
    }

    /// Whether the connection is being closed.
    pub fn is_closing(&self) -> (b: bool)
        ensures
            b == (self@ is Closing),
    {
        match self {
            ClientState::Closing => true,
            _ => false,
        }
    }
}

/// What a worker that is shutting down does with a connection.
#[derive(Clone, Copy, Debug, PartialEq, Eq, Structural)]
pub enum ShutdownAction {
    /// Let the command that is being run finish.
    Finish,
    /// Close the connection, telling the client so.
    Close,
}

/// What a worker that is shutting down does with a connection in `state`:
/// a command that is being run may finish until the grace period is over;
/// every other connection is closed, one that is blocked too.
pub open spec fn on_shutdown(state: StateView, grace_over: bool) -> ShutdownAction {
    if state is Executing && !grace_over {
        ShutdownAction::Finish
    } else {
        ShutdownAction::Close
    }
}

/// What a worker that is shutting down does with a connection.
pub fn shutdown_action(state: &ClientState, grace_over: bool) -> (action: ShutdownAction)
    ensures
        action == on_shutdown(state@, grace_over),
{
    if state.is_executing() && !grace_over {
        ShutdownAction::Finish
    } else {
        ShutdownAction::Close
    }
}

/// A wake-up moves a blocked connection on to run its command and does
/// nothing to a connection in any other state.
pub proof fn lemma_wake_up_only_unblocks(state: StateView)
    ensures
        state is Blocked ==> next_state(state, EventView::WakeUp) == Some(StateView::Executing),
        !(state is Blocked) ==> next_state(state, EventView::WakeUp) is None,
{
}

/// Nothing leads out of `Closing`, and a disconnect leads there from every
/// other state.
pub proof fn lemma_closing_is_terminal(state: StateView, event: EventView)
    ensures
        state is Closing ==> next_state(state, event) is None,
        !(state is Closing) ==> next_state(state, EventView::Disconnected) == Some(
            StateView::Closing,
        ),
{
}

/// A connection is blocked only after it ran a command, and it runs a
/// command only after a whole frame arrived, after a wake-up, or after its
/// deadline passed.
pub proof fn lemma_ways_into_states(state: StateView, event: EventView)
    ensures
        next_state(state, event) matches Some(StateView::Blocked { .. }) ==> state is Executing
            || state is Blocked,
        next_state(state, event) == Some(StateView::Executing) ==> (state is ReadingFrame
            && event is FrameComplete) || (state is Blocked && (event is WakeUp
            || event is DeadlinePassed)) || (state is Executing && event is BytesArrived),
        next_state(state, event) == Some(StateView::Idle) ==> state is Executing
            && event is Replied,
{
}

} // verus!
