//! The route table: guarded routes tried in order, first full match wins.

use crate::bytes::{bytes_equal, bytes_of};
use crate::request::{declared, HeadView, Header, Method, RequestHead};
use vstd::prelude::*;
use vstd::string::*;

verus! {

/// A precondition a request must meet before a route takes it.
#[derive(Clone, Debug, PartialEq, Eq)]
pub enum Guard {
    /// The request method is this one.
    Method(Method),
    /// The request declares exactly `value` for the header `name`.
    Header { name: Vec<u8>, value: Vec<u8> },
}

/// What a [`Guard`] holds.
pub enum GuardView {
    Method(Method),
    Header { name: Seq<u8>, value: Seq<u8> },
}

impl View for Guard {
    type V = GuardView;

    open spec fn view(&self) -> GuardView {
        match self {
            Guard::Method(m) => GuardView::Method(*m),
            Guard::Header { name, value } => GuardView::Header { name: name@, value: value@ },
        }
    }
}

impl GuardView {
    /// Whether the guard lets a request with this head through. A header
    /// guard compares names up to ASCII case and values byte for byte, and
    /// reads the first line of that name only.
    pub open spec fn accepts(self, head: HeadView) -> bool {
        match self {
            GuardView::Method(m) => head.method == m,
            GuardView::Header { name, value } => declared(head.headers, name) == Some(value),
        }
    }
}

impl Guard {
    /// Decides [`GuardView::accepts`].
    pub fn check(&self, head: &RequestHead) -> (pass: bool)
        ensures
            pass == self@.accepts(head@),
    {
        match self {
            Guard::Method(m) => head.method == *m,
            Guard::Header { name, value } => {
                match head.header(name.as_slice()) {
                    Some(found) => bytes_equal(found.as_slice(), value.as_slice()),
                    None => false,
                }
            },
        }
    }
}

/// The business logic a route leads to.
#[derive(Clone, Copy, Debug, PartialEq, Eq, Structural)]
pub enum Handler {
    /// Parse the body as CSV.
    ParseCsv,
}

/// A path, the guards on it, and the handler behind them.
#[derive(Clone, Debug, PartialEq, Eq)]
pub struct Route {
    pub path: Vec<u8>,
    pub guards: Vec<Guard>,
    pub handler: Handler,
}

/// What a [`Route`] holds.
pub struct RouteView {
    pub path: Seq<u8>,
    pub guards: Seq<GuardView>,
    pub handler: Handler,
}

impl View for Route {
    type V = RouteView;

    open spec fn view(&self) -> RouteView {
        RouteView {
            path: self.path@,
            guards: self.guards@.map_values(|g: Guard| g@),
            handler: self.handler,
        }
    }
}

impl RouteView {
    /// A route takes a request when the path is the route's, byte for byte,
    /// and every guard accepts.
    pub open spec fn matches(self, head: HeadView) -> bool {
        &&& self.path == head.path
        &&& forall|i: int| 0 <= i < self.guards.len() ==> (#[trigger] self.guards[i]).accepts(head)
    }
}

impl Route {
    /// Decides [`RouteView::matches`].
    pub fn matches(&self, head: &RequestHead) -> (hit: bool)
        ensures
            hit == self@.matches(head@),
    {
        if !bytes_equal(self.path.as_slice(), head.path.as_slice()) {
            return false;
        }
        let mut i: usize = 0;
        while i < self.guards.len()
            invariant
                i <= self.guards.len(),
                self@.path == head@.path,
                forall|k: int| 0 <= k < i ==> (#[trigger] self@.guards[k]).accepts(head@),
            decreases self.guards.len() - i,
        {
            if !self.guards[i].check(head) {
                assert(!self@.guards[i as int].accepts(head@));
                return false;
            }
            i += 1;
        }
        true
    }
}

/// The handler of the first route at or after index `from` that takes the
/// request.
pub open spec fn resolve_from(routes: Seq<RouteView>, head: HeadView, from: int) -> Option<
    Handler,
>
    decreases routes.len() - from,
    when 0 <= from
{
    if from >= routes.len() {
        None
    } else if routes[from].matches(head) {
        Some(routes[from].handler)
    } else {
        resolve_from(routes, head, from + 1)
    }
}

/// The handler a request is dispatched to: that of the first route that
/// takes it. `None` is the router's "no matching route".
pub open spec fn resolve(routes: Seq<RouteView>, head: HeadView) -> Option<Handler> {
    resolve_from(routes, head, 0)
}

/// Routes in the order in which they are tried.
#[derive(Clone, Debug, PartialEq, Eq)]
pub struct RouteTable {
    pub routes: Vec<Route>,
}

impl View for RouteTable {
    type V = Seq<RouteView>;

    open spec fn view(&self) -> Seq<RouteView> {
        self.routes@.map_values(|r: Route| r@)
    }
}

impl RouteTable {
    /// A table without routes: nothing matches.
    pub fn new() -> (table: RouteTable)
        ensures
            table@ == Seq::<RouteView>::empty(),
    {
        let table = RouteTable { routes: Vec::new() };
        assert(table@ =~= Seq::<RouteView>::empty());
        table
    }

    /// Dispatches a request head, before any body is read.
    pub fn resolve(&self, head: &RequestHead) -> (handler: Option<Handler>)
        ensures
            handler == resolve(self@, head@),
    {
        let mut i: usize = 0;
        while i < self.routes.len()
            invariant
                i <= self.routes.len(),
                self@.len() == self.routes.len(),
                resolve(self@, head@) == resolve_from(self@, head@, i as int),
            decreases self.routes.len() - i,
        {
            if self.routes[i].matches(head) {
                return Some(self.routes[i].handler);
            }
            i += 1;
        }
        None
    }
}

/// The path of the parse endpoint.
pub open spec fn parse_path() -> Seq<u8> {
    "/api/parse".spec_bytes()
}

/// The header whose value the parse endpoint is guarded by.
pub open spec fn content_type() -> Seq<u8> {
    "content-type".spec_bytes()
}

/// The one media type the parse endpoint accepts.
pub open spec fn text_csv() -> Seq<u8> {
    "text/csv".spec_bytes()
}

/// The parse endpoint: `POST /api/parse`, for bodies declared as `text/csv`.
pub open spec fn parse_route() -> RouteView {
    RouteView {
        path: parse_path(),
        guards: seq![
            GuardView::Method(Method::Post),
            GuardView::Header { name: content_type(), value: text_csv() },
        ],
        handler: Handler::ParseCsv,
    }
}

/// The requests that the parse endpoint takes: a POST to the parse path
/// whose declared content type is exactly `text/csv`.
pub open spec fn reaches_parse(head: HeadView) -> bool {
    &&& head.method == Method::Post
    &&& head.path == parse_path()
    &&& declared(head.headers, content_type()) == Some(text_csv())
}

/// Configures the routes: appends the parse endpoint to the table.
pub fn add_routes(table: &mut RouteTable)
    ensures
        final(table)@ == old(table)@.push(parse_route()),
{
    let mut guards: Vec<Guard> = Vec::new();
    guards.push(Guard::Method(Method::Post));
    // the header guard is what keeps bodies that are not declared as CSV out
    guards.push(Guard::Header { name: bytes_of("content-type"), value: bytes_of("text/csv") });
    let route = Route { path: bytes_of("/api/parse"), guards, handler: Handler::ParseCsv };
    assert(route@.guards =~= parse_route().guards);
    table.routes.push(route);
    assert(table@ =~= old(table)@.push(parse_route()));
}

} // verus!
