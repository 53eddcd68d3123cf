//! Configuration and the state that every request handler shares.

use std::sync::Arc;
use vstd::prelude::*;

verus! {

/// An IP address of either family, held as plain numbers.
#[derive(Clone, Copy, Debug, PartialEq, Eq)]
pub enum IpAddress {
    /// Four octets, most significant first.
    V4 { octets: [u8; 4] },
    /// Eight 16-bit segments, with the flow label and scope of the socket.
    V6 { segments: [u16; 8], flowinfo: u32, scope_id: u32 },
}

/// The address a listener binds to.
#[derive(Clone, Copy, Debug, PartialEq, Eq)]
pub struct SocketAddress {
    pub ip: IpAddress,
    pub port: u16,
}

/// Startup configuration: the host and port as they were given, and the
/// address they resolved to, if they resolved.
#[derive(Clone, Debug, PartialEq, Eq)]
pub struct Config {
    pub host: String,
    pub port: String,
    pub addr: Option<SocketAddress>,
}

/// State to be passed to each route.
#[derive(Clone, Debug, PartialEq, Eq)]
pub struct State {
    /// Config that may be useful to certain endpoints.
    pub config: Config,
}

/// Wraps a configuration for shared, read-only use by every handler.
pub fn build_state(config: Config) -> (state: Arc<State>)
    ensures
        state.config == config,
{
    Arc::new(State { config })
}

} // verus!
