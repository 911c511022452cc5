//! The core of a key-value server that speaks the Redis wire protocol, and
//! what its command-line client computes.
//!
//! The server's part is what decides: the state machine of a connection
//! (`client_state`, `client`), the wire format of commands and replies
//! (`codec`), a worker's handling of events (`worker`), the registry of
//! blocked clients that workers share (`watchers`), the manager's books on
//! its workers (`worker_manager`), counters (`telemetry`), the kinds of
//! failure (`error_codes`) and the options (`server_options`). Sockets,
//! threads and the storage engine are the caller's: it feeds events in and
//! carries out what comes back.
//!
//! The client's part is the address and the prompt, the commands of a
//! script and the line that carries a command (`command_line`), and the
//! text that shows a reply (`reply_printer`).

pub mod error_codes;
pub mod server_options;
pub mod octets;
pub mod codec;
pub mod client_state;
pub mod client;
pub mod telemetry;
pub mod watchers;
pub mod worker;
pub mod worker_manager;

pub mod bytes_buf;
pub mod text;
pub mod command_line;
pub mod reply_printer;
