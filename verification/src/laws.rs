//! What holds of every request the service answers.

use crate::bytes::same_name;
use crate::parser::parse;
use crate::request::{declared, declared_from, HeadView, HeaderView, Method, RequestView};
use crate::response::ResponseView;
use crate::routes::{
    content_type, parse_path, parse_route, reaches_parse, resolve, resolve_from, text_csv,
    Handler, RouteView,
};
use crate::server::{answer, response_of, service_routes};
use vstd::prelude::*;

verus! {

/// The first header line at or after `from` that bears a name decides
/// what is declared for it.
proof fn lemma_declared_from(headers: Seq<HeaderView>, name: Seq<u8>, from: int)
    requires
        0 <= from,
    ensures
        match declared_from(headers, name, from) {
            Some(value) => exists|i: int|
                {
                    &&& from <= i < headers.len()
                    &&& same_name(#[trigger] headers[i].name, name)
                    &&& headers[i].value == value
                    &&& forall|j: int| from <= j < i ==> !same_name(#[trigger] headers[j].name, name)
                },
            None => forall|i: int|
                from <= i < headers.len() ==> !same_name(#[trigger] headers[i].name, name),
        },
    decreases headers.len() - from,
{
    if from < headers.len() && !same_name(headers[from].name, name) {
        lemma_declared_from(headers, name, from + 1);
        if let Some(value) = declared_from(headers, name, from + 1) {
            let i = choose|i: int|
                {
                    &&& from + 1 <= i < headers.len()
                    &&& same_name(#[trigger] headers[i].name, name)
                    &&& headers[i].value == value
                    &&& forall|j: int|
                        from + 1 <= j < i ==> !same_name(#[trigger] headers[j].name, name)
                };
            assert(same_name(headers[i].name, name));
        }
    } else if from < headers.len() {
        assert(same_name(headers[from].name, name));
    }
}

/// What a request declares for a header is the value of the first line
/// that bears the name, in whatever case; it declares nothing where no
/// line bears it.
pub proof fn law_first_header_line_decides(headers: Seq<HeaderView>, name: Seq<u8>)
    ensures
        match declared(headers, name) {
            Some(value) => exists|i: int|
                {
                    &&& 0 <= i < headers.len()
                    &&& same_name(#[trigger] headers[i].name, name)
                    &&& headers[i].value == value
                    &&& forall|j: int| 0 <= j < i ==> !same_name(#[trigger] headers[j].name, name)
                },
            None => forall|i: int|
                0 <= i < headers.len() ==> !same_name(#[trigger] headers[i].name, name),
        },
{
    lemma_declared_from(headers, name, 0);
}

/// The first route at or after `from` that takes a request gives the
/// handler.
proof fn lemma_resolve_from(routes: Seq<RouteView>, head: HeadView, from: int)
    requires
        0 <= from,
    ensures
        match resolve_from(routes, head, from) {
            Some(handler) => exists|i: int|
                {
                    &&& from <= i < routes.len()
                    &&& (#[trigger] routes[i]).matches(head)
                    &&& routes[i].handler == handler
                    &&& forall|j: int| from <= j < i ==> !(#[trigger] routes[j]).matches(head)
                },
            None => forall|i: int| from <= i < routes.len() ==> !(#[trigger] routes[i]).matches(head),
        },
    decreases routes.len() - from,
{
    if from < routes.len() && !routes[from].matches(head) {
        lemma_resolve_from(routes, head, from + 1);
        if let Some(handler) = resolve_from(routes, head, from + 1) {
            let i = choose|i: int|
                {
                    &&& from + 1 <= i < routes.len()
                    &&& (#[trigger] routes[i]).matches(head)
                    &&& routes[i].handler == handler
                    &&& forall|j: int| from + 1 <= j < i ==> !(#[trigger] routes[j]).matches(head)
                };
            assert(routes[i].matches(head));
        }
    } else if from < routes.len() {
        assert(routes[from].matches(head));
    }
}

/// Routes are tried in order and the first that takes a request wins; a
/// request that no route takes is dispatched to nothing.
pub proof fn law_first_match_wins(routes: Seq<RouteView>, head: HeadView)
    ensures
        match resolve(routes, head) {
            Some(handler) => exists|i: int|
                {
                    &&& 0 <= i < routes.len()
                    &&& (#[trigger] routes[i]).matches(head)
                    &&& routes[i].handler == handler
                    &&& forall|j: int| 0 <= j < i ==> !(#[trigger] routes[j]).matches(head)
                },
            None => forall|i: int| 0 <= i < routes.len() ==> !(#[trigger] routes[i]).matches(head),
        },
{
    lemma_resolve_from(routes, head, 0);
}

/// The service dispatches a request to the parse handler if it is a POST
/// to the parse path that declares `text/csv`, and to nothing otherwise.
pub proof fn law_dispatch(head: HeadView)
    ensures
        reaches_parse(head) ==> resolve(service_routes(), head) == Some(Handler::ParseCsv),
        !reaches_parse(head) ==> resolve(service_routes(), head) is None,
{
    let route = parse_route();
    assert(service_routes()[0] == route);
    assert(resolve_from(service_routes(), head, 1) is None);
    if reaches_parse(head) {
        assert(route.matches(head)) by {
            assert(route.guards[0].accepts(head));
            assert(route.guards[1].accepts(head));
        }
    } else {
        assert(!route.matches(head)) by {
            if head.method != Method::Post {
                assert(!route.guards[0].accepts(head));
            } else if head.path == parse_path() {
                assert(!route.guards[1].accepts(head));
            }
        }
    }
}

/// The service answers a request that reaches the parse handler with what
/// the handler makes of its body, and any other request with "not found".
pub proof fn law_answer(request: RequestView)
    ensures
        response_of(service_routes(), request) == answer(request),
{
    law_dispatch(request.head);
}

/// A request that reaches the parse handler with a body that parses is
/// answered with success, and the answer holds the document that the body
/// parses to.
pub proof fn law_valid_body_is_parsed(request: RequestView)
    requires
        reaches_parse(request.head),
        parse(request.body) is Ok,
    ensures
        answer(request) == ResponseView::Parsed(parse(request.body)->Ok_0),
        answer(request).status() == 200,
        answer(request).is_success(),
{
}

/// A request whose declared content type is anything but `text/csv`, or
/// that declares none, finds no route, whatever its method, path and body:
/// the body has no part in the answer.
pub proof fn law_other_content_type_is_not_found(request: RequestView)
    requires
        declared(request.head.headers, content_type()) != Some(text_csv()),
    ensures
        resolve(service_routes(), request.head) is None,
        answer(request) == ResponseView::NotFound,
        answer(request).status() == 404,
{
    law_dispatch(request.head);
}

/// A request that reaches the parse handler with a body that does not
/// parse is answered with a client error that names the fault, never with
/// success.
pub proof fn law_malformed_body_is_client_error(request: RequestView)
    requires
        reaches_parse(request.head),
        parse(request.body) is Err,
    ensures
        answer(request) == ResponseView::Malformed(parse(request.body)->Err_0),
        answer(request).status() == 400,
        answer(request).is_client_error(),
        !answer(request).is_success(),
{
}

} // verus!
