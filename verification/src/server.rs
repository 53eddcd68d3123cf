//! The server: what it binds to, and how it answers each request.

use crate::parser::parse;
use crate::request::{Request, RequestHead, RequestView};
use crate::response::{handle, reply, Response, ResponseView};
use crate::laws::law_dispatch;
use crate::routes::{
    add_routes, parse_route, reaches_parse, resolve, Handler, RouteTable, RouteView,
};
use crate::state::{SocketAddress, State};
use std::sync::Arc;
use vstd::prelude::*;
use vstd::string::*;

verus! {

/// The routes of the service: the parse endpoint and nothing else.
pub open spec fn service_routes() -> Seq<RouteView> {
    seq![parse_route()]
}

/// The answer of a service with these routes: "not found" where no route
/// takes the head of the request, whatever the body; otherwise what the
/// handler makes of the body.
pub open spec fn response_of(routes: Seq<RouteView>, request: RequestView) -> ResponseView {
    match resolve(routes, request.head) {
        None => ResponseView::NotFound,
        Some(Handler::ParseCsv) => reply(parse(request.body)),
    }
}

/// The answer that the service owes a request: what the parse handler
/// makes of the body where the request reaches it, and "not found"
/// otherwise, whatever the body.
pub open spec fn answer(request: RequestView) -> ResponseView {
    if reaches_parse(request.head) {
        reply(parse(request.body))
    } else {
        ResponseView::NotFound
    }
}

/// A configured server: the address to listen on, the state its handlers
/// share, and its routes, which are those of the service.
#[derive(Debug)]
pub struct Server {
    addr: SocketAddress,
    state: Arc<State>,
    routes: RouteTable,
}

/// Why a server cannot start.
#[derive(Clone, Debug, PartialEq, Eq)]
pub enum StartupError {
    /// The configuration resolved to no address. Both the host and the port
    /// must be set; the fields hold what they were.
    AddressNotSet { port: String, host: String },
}

impl StartupError {
    /// The diagnostic for the log: which inputs must be set, and what they
    /// were.
    pub open spec fn diagnostic(self) -> Seq<char> {
        match self {
            StartupError::AddressNotSet { port, host } => {
                "Address not set in config. Please make sure that both \"PORT\" and \"HOST\" are set correctly. PORT = "@
                    + port@ + ", HOST = "@ + host@
            },
        }
    }

    /// Writes out [`StartupError::diagnostic`].
    pub fn message(&self) -> (text: String)
        ensures
            text@ == self.diagnostic(),
    {
        match self {
            StartupError::AddressNotSet { port, host } => {
                let text = String::from_str(
                    "Address not set in config. Please make sure that both \"PORT\" and \"HOST\" are set correctly. PORT = ",
                );
                text.concat(port.as_str()).concat(", HOST = ").concat(host.as_str())
            },
        }
    }
}

impl Server {
    #[verifier::type_invariant]
    spec fn well_formed(self) -> bool {
        self.routes@ == service_routes()
    }

    /// The address the server listens on.
    pub closed spec fn bind_addr(self) -> SocketAddress {
        self.addr
    }

    /// The state the handlers share.
    pub closed spec fn shared(self) -> Arc<State> {
        self.state
    }

    /// The address to bind the listener to.
    pub fn addr(&self) -> (addr: SocketAddress)
        ensures
            addr == self.bind_addr(),
    {
        self.addr
    }

    /// The state shared by all handlers.
    pub fn state(&self) -> (state: &Arc<State>)
        ensures
            *state == self.shared(),
    {
        &self.state
    }

    /// Dispatches on the head of a request alone, so that a request no
    /// route takes is turned away before its body is read.
    pub fn route(&self, head: &RequestHead) -> (handler: Option<Handler>)
        ensures
            handler == resolve(service_routes(), head@),
            handler == if reaches_parse(head@) {
                Some(Handler::ParseCsv)
            } else {
                None
            },
    {
        proof {
            use_type_invariant(self);
            law_dispatch(head@);
        }
        self.routes.resolve(head)
    }

    /// Runs a handler on the body of a request that was dispatched to it.
    pub fn run(&self, handler: Handler, body: &[u8]) -> (response: Response)
        ensures
            response@ == reply(parse(body@)),
    {
        match handler {
            Handler::ParseCsv => handle(body, &self.state),
        }
    }

    /// Answers a whole request.
    pub fn respond(&self, request: &Request) -> (response: Response)
        ensures
            response@ == answer(request@),
            response@ == response_of(service_routes(), request@),
    {
        match self.route(&request.head) {
            None => Response::NotFound,
            Some(handler) => self.run(handler, request.body.as_slice()),
        }
    }
}

/// Sets the state and the routes of the server. The address must have
/// resolved: a service without one does not start.
pub fn start(state: Arc<State>) -> (server: Server)
    requires
        state.config.addr is Some,
    ensures
        Some(server.bind_addr()) == state.config.addr,
        server.shared() == state,
{
    let addr: SocketAddress = state.config.addr.unwrap();
    let mut routes = RouteTable::new();
    add_routes(&mut routes);
    assert(routes@ =~= service_routes());
    Server { addr, state, routes }
}

/// Starts the server if the configuration resolved to an address, and
/// says what was configured if it did not.
pub fn try_start(state: Arc<State>) -> (started: Result<Server, StartupError>)
    ensures
        match started {
            Ok(server) => Some(server.bind_addr()) == state.config.addr && server.shared() == state,
            Err(StartupError::AddressNotSet { port, host }) => state.config.addr is None && port
                == state.config.port && host == state.config.host,
        },
{
    if state.config.addr.is_some() {
        Ok(start(state))
    } else {
        Err(
            StartupError::AddressNotSet {
                port: state.config.port.clone(),
                host: state.config.host.clone(),
            },
        )
    }
}

} // verus!
