//! The parameters the server runs with. They are read once at startup and
//! not changed afterwards.

use vstd::prelude::*;
use vstd::string::StringExecFns;

verus! {

/// The parameters the server runs with.
pub struct ServerOptions {
    host: String,
    port: u16,
    workers: usize,
    read_timeout_ms: u64,
    write_timeout_ms: u64,
    blocking_timeout_ms: u64,
    heartbeat_timeout_ms: u64,
    max_frame_size: usize,
    tls: bool,
}

impl ServerOptions {
    /// The options with every field given. A worker count of zero stands
    /// for as many workers as the host runs threads in parallel.
    pub fn new(
        host: String,
        port: u16,
        workers: usize,
        read_timeout_ms: u64,
        write_timeout_ms: u64,
        blocking_timeout_ms: u64,
        heartbeat_timeout_ms: u64,
        max_frame_size: usize,
        tls: bool,
    ) -> (options: ServerOptions)
        ensures
            options.spec_host() == host@,
            options.spec_port() == port,
            options.spec_workers() == workers,
            options.spec_read_timeout_ms() == read_timeout_ms,
            options.spec_write_timeout_ms() == write_timeout_ms,
            options.spec_blocking_timeout_ms() == blocking_timeout_ms,
            options.spec_heartbeat_timeout_ms() == heartbeat_timeout_ms,
            options.spec_max_frame_size() == max_frame_size,
            options.spec_tls() == tls,
    {
        ServerOptions {
            host,
            port,
            workers,
            read_timeout_ms,
            write_timeout_ms,
            blocking_timeout_ms,
            heartbeat_timeout_ms,
            max_frame_size,
            tls,
        }
    }

    pub closed spec fn spec_host(&self) -> Seq<char> {
        self.host@
    }

    pub closed spec fn spec_port(&self) -> u16 {
        self.port
    }

    pub closed spec fn spec_workers(&self) -> usize {
        self.workers
    }

    pub closed spec fn spec_read_timeout_ms(&self) -> u64 {
        self.read_timeout_ms
    }

    pub closed spec fn spec_write_timeout_ms(&self) -> u64 {
        self.write_timeout_ms
    }

    pub closed spec fn spec_blocking_timeout_ms(&self) -> u64 {
        self.blocking_timeout_ms
    }

    pub closed spec fn spec_heartbeat_timeout_ms(&self) -> u64 {
        self.heartbeat_timeout_ms
    }

    pub closed spec fn spec_max_frame_size(&self) -> usize {
        self.max_frame_size
    }

    pub closed spec fn spec_tls(&self) -> bool {
        self.tls
    }

    /// How many workers a host that runs `host_parallelism` threads in
    /// parallel gets: the configured count, or `host_parallelism` where
    /// none is configured.
    pub open spec fn spec_worker_count(&self, host_parallelism: usize) -> usize {
        if self.spec_workers() > 0 {
            self.spec_workers()
        } else {
            host_parallelism
        }
    }

    /// The deadline of a blocking command that starts at `now`: the
    /// client's own timeout if it gave one, else the configured default; a
    /// timeout of zero means no deadline, and so does a deadline that
    /// would lie beyond the end of time.
    pub open spec fn spec_deadline(&self, now: u64, requested_ms: Option<u64>) -> Option<u64> {
        let wait = match requested_ms {
            Some(ms) => ms,
            None => self.spec_blocking_timeout_ms(),
        };
        if wait == 0 || now + wait > u64::MAX {
            None
        } else {
            Some((now + wait) as u64)
        }
    }

    /// The address to listen on.
    pub fn host(&self) -> (h: &str)
        ensures
            h@ == self.spec_host(),
    {
        self.host.as_str()
    }

    /// The port to listen on.
    #[verifier::when_used_as_spec(spec_port)]
    pub fn port(&self) -> (p: u16)
        ensures
            p == self.spec_port(),
    {
        self.port
    }

    /// The configured number of workers; zero for the host's parallelism.
    #[verifier::when_used_as_spec(spec_workers)]
    pub fn workers(&self) -> (n: usize)
        ensures
            n == self.spec_workers(),
    {
        self.workers
    }

    /// How long a read may take, in milliseconds.
    #[verifier::when_used_as_spec(spec_read_timeout_ms)]
    pub fn read_timeout_ms(&self) -> (ms: u64)
        ensures
            ms == self.spec_read_timeout_ms(),
    {
        self.read_timeout_ms
    }

    /// How long a write may take, in milliseconds.
    #[verifier::when_used_as_spec(spec_write_timeout_ms)]
    pub fn write_timeout_ms(&self) -> (ms: u64)
        ensures
            ms == self.spec_write_timeout_ms(),
    {
        self.write_timeout_ms
    }

    /// How long a blocking command waits where the client names no
    /// timeout, in milliseconds; zero for no limit.
    #[verifier::when_used_as_spec(spec_blocking_timeout_ms)]
    pub fn blocking_timeout_ms(&self) -> (ms: u64)
        ensures
            ms == self.spec_blocking_timeout_ms(),
    {
        self.blocking_timeout_ms
    }

    /// How long a worker may go without a heartbeat, in milliseconds.
    #[verifier::when_used_as_spec(spec_heartbeat_timeout_ms)]
    pub fn heartbeat_timeout_ms(&self) -> (ms: u64)
        ensures
            ms == self.spec_heartbeat_timeout_ms(),
    {
        self.heartbeat_timeout_ms
    }

    /// The most bytes one frame may have.
    #[verifier::when_used_as_spec(spec_max_frame_size)]
    pub fn max_frame_size(&self) -> (n: usize)
        ensures
            n == self.spec_max_frame_size(),
    {
        self.max_frame_size
    }

    /// Whether connections are encrypted.
    #[verifier::when_used_as_spec(spec_tls)]
    pub fn tls(&self) -> (b: bool)
        ensures
            b == self.spec_tls(),
    {
        self.tls
    }

    /// How many workers to start on a host that runs `host_parallelism`
    /// threads in parallel.
    #[verifier::when_used_as_spec(spec_worker_count)]
    pub fn worker_count(&self, host_parallelism: usize) -> (n: usize)
        ensures
            n == self.spec_worker_count(host_parallelism),
    {
        if self.workers > 0 {
            self.workers
        } else {
            host_parallelism
        }
    }

    /// The deadline of a blocking command that starts at `now`.
    #[verifier::when_used_as_spec(spec_deadline)]
    pub fn deadline(&self, now: u64, requested_ms: Option<u64>) -> (d: Option<u64>)
        ensures
            d == self.spec_deadline(now, requested_ms),
    {
        let wait: u64 = match requested_ms {
            Some(ms) => ms,
            None => self.blocking_timeout_ms,
        };
        if wait == 0 {
            None
        } else {
            now.checked_add(wait)
        }
    }
}

impl Default for ServerOptions {
    /// The loopback address on port 6379, one worker for each thread the
    /// host runs in parallel, no timeouts, frames of up to 512 MiB, no
    /// encryption, and five seconds between heartbeats at most.
    fn default() -> (options: ServerOptions)
        ensures
            options.spec_host() == "127.0.0.1"@,
            options.spec_port() == 6379,
            options.spec_workers() == 0,
            options.spec_read_timeout_ms() == 0,
            options.spec_write_timeout_ms() == 0,
            options.spec_blocking_timeout_ms() == 0,
            options.spec_heartbeat_timeout_ms() == 5000,
            options.spec_max_frame_size() == 536_870_912,
            options.spec_tls() == false,
    {
        ServerOptions {
            host: String::from_str("127.0.0.1"),
            port: 6379,
            workers: 0,
            read_timeout_ms: 0,
            write_timeout_ms: 0,
            blocking_timeout_ms: 0,
            heartbeat_timeout_ms: 5000,
            max_frame_size: 536_870_912,
            tls: false,
        }
    }
}

} // verus!
