//! The kinds of failure the server distinguishes, and what each one means
//! for the connection, the worker and the process it happens in.

use vstd::prelude::*;

verus! {

/// A kind of failure.
#[derive(Clone, Copy, Debug, PartialEq, Eq, Structural)]
pub enum ErrorKind {
    /// A malformed or oversized frame.
    ProtocolError,
    /// An unknown or invalid command.
    CommandError,
    /// A blocking command reached its deadline.
    TimeoutError,
    /// The storage engine failed.
    StorageError,
    /// The manager could not bind or spawn.
    StartupError,
    /// A worker died.
    WorkerFailure,
}

/// Who has to deal with a failure.
#[derive(Clone, Copy, Debug, PartialEq, Eq, Structural)]
pub enum Scope {
    /// The worker that owns the connection handles it locally.
    Connection,
    /// The manager restarts the worker and moves its connections.
    Worker,
    /// The process does not start.
    Process,
}

impl ErrorKind {
    /// Whether the client is sent an error reply for this kind.
    pub open spec fn spec_sends_reply(self) -> bool {
        self == ErrorKind::ProtocolError || self == ErrorKind::CommandError || self
            == ErrorKind::TimeoutError || self == ErrorKind::StorageError
    }

    /// Whether the connection is closed once the reply has been sent.
    pub open spec fn spec_closes_connection(self) -> bool {
        self == ErrorKind::ProtocolError
    }

    /// Who handles a failure of this kind.
    pub open spec fn spec_scope(self) -> Scope {
        match self {
            ErrorKind::StartupError => Scope::Process,
            ErrorKind::WorkerFailure => Scope::Worker,
            _ => Scope::Connection,
        }
    }

    /// The kind the client gets to see: a storage failure is reported as a
    /// command error, every other kind as itself.
    pub open spec fn spec_client_visible(self) -> ErrorKind {
        if self == ErrorKind::StorageError {
            ErrorKind::CommandError
        } else {
            self
        }
    }

    /// Whether the client is sent an error reply for this kind.
    #[verifier::when_used_as_spec(spec_sends_reply)]
    pub fn sends_reply(self) -> (b: bool)
        ensures
            b == self.spec_sends_reply(),
    {
        match self {
            ErrorKind::ProtocolError
            | ErrorKind::CommandError
            | ErrorKind::TimeoutError
            | ErrorKind::StorageError => true,
            _ => false,
        }
    }

    /// Whether the connection is closed once the reply has been sent.
    #[verifier::when_used_as_spec(spec_closes_connection)]
    pub fn closes_connection(self) -> (b: bool)
        ensures
            b == self.spec_closes_connection(),
    {
        match self {
            ErrorKind::ProtocolError => true,
            _ => false,
        }
    }

    /// Who handles a failure of this kind.
    #[verifier::when_used_as_spec(spec_scope)]
    pub fn scope(self) -> (s: Scope)
        ensures
            s == self.spec_scope(),
    {
        match self {
            ErrorKind::StartupError => Scope::Process,
            ErrorKind::WorkerFailure => Scope::Worker,
            _ => Scope::Connection,
        }
    }

    /// The kind the client gets to see.
    #[verifier::when_used_as_spec(spec_client_visible)]
    pub fn client_visible(self) -> (k: ErrorKind)
        ensures
            k == self.spec_client_visible(),
    {
        match self {
            ErrorKind::StorageError => ErrorKind::CommandError,
            other => other,
        }
    }
}

/// Only a worker's death reaches the manager: every failure that is sent to
/// a client is handled by the worker that owns the connection, and of those
/// only a protocol error costs the client its connection.
pub proof fn lemma_replied_errors_stay_local(kind: ErrorKind)
    ensures
        kind.spec_sends_reply() <==> kind.spec_scope() == Scope::Connection,
        kind.spec_closes_connection() ==> kind.spec_sends_reply(),
        kind.spec_client_visible().spec_sends_reply() == kind.spec_sends_reply(),
        kind.spec_client_visible().spec_closes_connection() == kind.spec_closes_connection(),
{
}

} // verus!
