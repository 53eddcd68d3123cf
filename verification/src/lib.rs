//! A single-endpoint CSV ingestion service, decided in verified code.
//!
//! The crate holds every decision the service takes: which requests reach
//! the parse handler, what a body parses to, which response each outcome
//! gets, and whether the process may start at all. Sockets, middleware and
//! the wire format of responses belong to the transport that drives it.

pub mod bytes;
pub mod dialect;
pub mod laws;
pub mod parser;
pub mod request;
pub mod response;
pub mod routes;
pub mod server;
pub mod state;

pub use server::{start, try_start, Server, StartupError};
pub use state::{build_state, Config, IpAddress, SocketAddress, State};
