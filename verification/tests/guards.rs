use actix_web::guard::Guard as _;
use actix_web::test::TestRequest;

use server::request::{Header, Method, RequestHead};
use server::routes::{add_routes, Guard, Handler, Route, RouteTable};

fn head(method: Method, path: &str, lines: &[(&str, &str)]) -> RequestHead {
    RequestHead {
        method,
        path: path.as_bytes().to_vec(),
        headers: lines
            .iter()
            .map(|(n, v)| Header { name: n.as_bytes().to_vec(), value: v.as_bytes().to_vec() })
            .collect(),
    }
}

fn csv_guard() -> Guard {
    Guard::Header { name: b"content-type".to_vec(), value: b"text/csv".to_vec() }
}

/// What actix-web's own header guard makes of the same header lines.
fn framework_says(lines: &[(&str, &str)]) -> bool {
    let mut request = TestRequest::post().uri("/api/parse");
    for (name, value) in lines {
        request = request.append_header((*name, *value));
    }
    let request = request.to_srv_request();
    let accepted = actix_web::guard::Header("content-type", "text/csv").check(&request.guard_ctx());
    accepted
}

#[test]
fn header_guard_agrees_with_the_framework() {
    let cases: Vec<(Vec<(&str, &str)>, bool)> = vec![
        (vec![], false),
        (vec![("content-type", "text/csv")], true),
        (vec![("Content-Type", "text/csv")], true),
        (vec![("CONTENT-TYPE", "text/csv")], true),
        (vec![("content-type", "Text/Csv")], false),
        (vec![("content-type", "text/csv; charset=utf-8")], false),
        (vec![("content-type", "text/csv ")], false),
        (vec![("content-type", "")], false),
        (vec![("content-type", "application/json")], false),
        (vec![("accept", "text/csv")], false),
        (vec![("content-typ", "text/csv")], false),
        (vec![("x-content-type", "text/csv")], false),
        (vec![("accept", "*/*"), ("content-type", "text/csv"), ("host", "h")], true),
        (vec![("content-type", "text/csv"), ("content-type", "application/json")], true),
        (vec![("content-type", "application/json"), ("content-type", "text/csv")], false),
        (vec![("Content-Type", "application/json"), ("content-type", "text/csv")], false),
        (vec![("content-type", "text/csv"), ("Content-Type", "text/csv")], true),
    ];
    for (lines, expected) in cases {
        let ours = csv_guard().check(&head(Method::Post, "/api/parse", &lines));
        assert_eq!(ours, expected, "header lines {:?}", lines);
        assert_eq!(ours, framework_says(&lines), "header lines {:?}", lines);
    }
}

#[test]
fn method_guard_agrees_with_the_framework() {
    let requests = [
        (Method::Get, TestRequest::get()),
        (Method::Post, TestRequest::post()),
        (Method::Put, TestRequest::put()),
        (Method::Delete, TestRequest::delete()),
        (Method::Patch, TestRequest::patch()),
    ];
    for (method, request) in requests {
        let request = request.to_srv_request();
        let theirs = actix_web::guard::Post().check(&request.guard_ctx());
        let ours = Guard::Method(Method::Post).check(&head(method, "/", &[]));
        assert_eq!(ours, theirs, "method {:?}", method);
        assert_eq!(ours, method == Method::Post);
    }
}

#[test]
fn header_guard_with_a_mixed_case_name() {
    let guard = Guard::Header { name: b"X-Guarded".to_vec(), value: b"secret".to_vec() };
    assert!(guard.check(&head(Method::Get, "/", &[("x-guarded", "secret")])));
    assert!(guard.check(&head(Method::Get, "/", &[("X-GUARDED", "secret")])));
    assert!(!guard.check(&head(Method::Get, "/", &[("x-guarded", "Secret")])));
    assert!(!guard.check(&head(Method::Get, "/", &[("x_guarded", "secret")])));
}

#[test]
fn method_guard_compares_the_method() {
    let all = [
        Method::Get,
        Method::Post,
        Method::Put,
        Method::Delete,
        Method::Head,
        Method::Options,
        Method::Connect,
        Method::Patch,
        Method::Trace,
        Method::Other,
    ];
    for wanted in all {
        for given in all {
            let pass = Guard::Method(wanted).check(&head(given, "/", &[]));
            assert_eq!(pass, wanted == given, "guard {:?}, request {:?}", wanted, given);
        }
    }
}

#[test]
fn header_lookup_finds_the_first_line_of_a_name() {
    let h = head(
        Method::Get,
        "/",
        &[("a", "1"), ("B", "2"), ("b", "3"), ("A", "4"), ("", "5")],
    );
    assert_eq!(h.header(b"a"), Some(&b"1".to_vec()));
    assert_eq!(h.header(b"A"), Some(&b"1".to_vec()));
    assert_eq!(h.header(b"b"), Some(&b"2".to_vec()));
    assert_eq!(h.header(b""), Some(&b"5".to_vec()));
    assert_eq!(h.header(b"c"), None);
    assert_eq!(head(Method::Get, "/", &[]).header(b"a"), None);
}

#[test]
fn route_needs_its_path_and_all_its_guards() {
    let route = Route {
        path: b"/x".to_vec(),
        guards: vec![
            Guard::Method(Method::Put),
            Guard::Header { name: b"k".to_vec(), value: b"v".to_vec() },
            Guard::Header { name: b"l".to_vec(), value: b"w".to_vec() },
        ],
        handler: Handler::ParseCsv,
    };
    assert!(route.matches(&head(Method::Put, "/x", &[("k", "v"), ("l", "w")])));
    assert!(!route.matches(&head(Method::Put, "/y", &[("k", "v"), ("l", "w")])));
    assert!(!route.matches(&head(Method::Post, "/x", &[("k", "v"), ("l", "w")])));
    assert!(!route.matches(&head(Method::Put, "/x", &[("l", "w")])));
    assert!(!route.matches(&head(Method::Put, "/x", &[("k", "v"), ("l", "v")])));
    let open = Route { path: b"/x".to_vec(), guards: vec![], handler: Handler::ParseCsv };
    assert!(open.matches(&head(Method::Delete, "/x", &[])));
    assert!(!open.matches(&head(Method::Delete, "/x/", &[])));
}

#[test]
fn empty_table_matches_nothing() {
    let table = RouteTable::new();
    assert!(table.routes.is_empty());
    assert_eq!(table.resolve(&head(Method::Post, "/api/parse", &[("content-type", "text/csv")])), None);
}

#[test]
fn add_routes_appends_the_parse_endpoint() {
    let mut table = RouteTable::new();
    add_routes(&mut table);
    let expected = Route {
        path: b"/api/parse".to_vec(),
        guards: vec![Guard::Method(Method::Post), csv_guard()],
        handler: Handler::ParseCsv,
    };
    assert_eq!(table.routes, vec![expected.clone()]);
    assert_eq!(
        table.resolve(&head(Method::Post, "/api/parse", &[("content-type", "text/csv")])),
        Some(Handler::ParseCsv)
    );
    assert_eq!(table.resolve(&head(Method::Post, "/api/parse", &[])), None);

    let before = Route { path: b"/other".to_vec(), guards: vec![], handler: Handler::ParseCsv };
    let mut table = RouteTable { routes: vec![before.clone()] };
    add_routes(&mut table);
    assert_eq!(table.routes, vec![before, expected]);
    assert_eq!(table.resolve(&head(Method::Get, "/other", &[])), Some(Handler::ParseCsv));
    assert_eq!(table.resolve(&head(Method::Get, "/api/parse", &[])), None);
}
