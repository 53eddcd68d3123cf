use std::sync::Arc;

use server::response::{handle, respond, Response};
use server::parser::{ParseError, ParsedDocument};
use server::{
    build_state, start, try_start, Config, IpAddress, SocketAddress, StartupError, State,
};

fn v4() -> SocketAddress {
    SocketAddress { ip: IpAddress::V4 { octets: [0, 0, 0, 0] }, port: 3000 }
}

fn v6() -> SocketAddress {
    SocketAddress {
        ip: IpAddress::V6 { segments: [0xfe80, 0, 0, 0, 0, 0, 0, 1], flowinfo: 0, scope_id: 2 },
        port: 443,
    }
}

fn config(host: &str, port: &str, addr: Option<SocketAddress>) -> Config {
    Config { host: host.to_string(), port: port.to_string(), addr }
}

#[test]
fn build_state_keeps_the_configuration() {
    let state = build_state(config("localhost", "3000", Some(v4())));
    assert_eq!(*state, State { config: config("localhost", "3000", Some(v4())) });
    let state = build_state(config("", "", None));
    assert_eq!(state.config.addr, None);
}

#[test]
fn start_binds_to_the_resolved_address() {
    let state = build_state(config("0.0.0.0", "3000", Some(v4())));
    let server = start(state);
    assert_eq!(server.addr(), v4());
    let server = start(build_state(config("fe80::1%2", "443", Some(v6()))));
    assert_eq!(server.addr(), v6());
}

#[test]
fn start_shares_the_state_it_was_given() {
    let state = build_state(config("0.0.0.0", "3000", Some(v4())));
    let server = start(Arc::clone(&state));
    assert!(Arc::ptr_eq(server.state(), &state));
    assert_eq!(server.state().config, config("0.0.0.0", "3000", Some(v4())));
}

#[test]
fn try_start_starts_where_the_address_resolved() {
    let state = build_state(config("0.0.0.0", "3000", Some(v4())));
    match try_start(Arc::clone(&state)) {
        Ok(server) => {
            assert_eq!(server.addr(), v4());
            assert!(Arc::ptr_eq(server.state(), &state));
        }
        Err(fault) => panic!("expected a server, got {:?}", fault),
    }
}

#[test]
fn no_address_no_server() {
    match try_start(build_state(config("", "", None))) {
        Ok(_) => panic!("a server without an address"),
        Err(fault) => assert_eq!(
            fault,
            StartupError::AddressNotSet { port: "".to_string(), host: "".to_string() }
        ),
    }
    match try_start(build_state(config("no.such.host", "80", None))) {
        Ok(_) => panic!("a server without an address"),
        Err(fault) => assert_eq!(
            fault,
            StartupError::AddressNotSet { port: "80".to_string(), host: "no.such.host".to_string() }
        ),
    }
}

#[test]
fn diagnostic_names_both_inputs() {
    let fault = StartupError::AddressNotSet { port: "80x".to_string(), host: "nowhere".to_string() };
    assert_eq!(
        fault.message(),
        "Address not set in config. Please make sure that both \"PORT\" and \"HOST\" are set correctly. PORT = 80x, HOST = nowhere"
    );
    let fault = StartupError::AddressNotSet { port: String::new(), host: String::new() };
    assert_eq!(
        fault.message(),
        "Address not set in config. Please make sure that both \"PORT\" and \"HOST\" are set correctly. PORT = , HOST = "
    );
}

fn one_cell() -> ParsedDocument {
    ParsedDocument { columns: vec![b"c".to_vec()], rows: vec![vec![b"v".to_vec()]] }
}

#[test]
fn status_codes() {
    assert_eq!(Response::Parsed(one_cell()).status(), 200);
    assert_eq!(Response::Malformed(ParseError::Empty).status(), 400);
    assert_eq!(Response::NotFound.status(), 404);
}

#[test]
fn respond_maps_each_outcome() {
    assert_eq!(respond(Ok(one_cell())), Response::Parsed(one_cell()));
    for fault in [
        ParseError::Empty,
        ParseError::UnterminatedQuote { at: 3 },
        ParseError::UnexpectedQuote { at: 4 },
        ParseError::UnexpectedByteAfterQuote { at: 5 },
        ParseError::BareCarriageReturn { at: 6 },
        ParseError::RaggedRow { row: 1, expected: 2, found: 3 },
    ] {
        assert_eq!(respond(Err(fault)), Response::Malformed(fault));
        assert_eq!(respond(Err(fault)).status(), 400);
    }
}

#[test]
fn handle_answers_from_the_body_alone() {
    let with_addr = State { config: config("h", "1", Some(v4())) };
    let without = State { config: config("", "", None) };
    for state in [&with_addr, &without] {
        assert_eq!(handle(b"c\nv\n", state), Response::Parsed(one_cell()));
        assert_eq!(
            handle(b"c\n\"v\n", state),
            Response::Malformed(ParseError::UnterminatedQuote { at: 2 })
        );
    }
}
