use http_server::connection::{handle_connection, ConnectionState, MAX_REQUEST_BYTES};
use http_server::request::HttpRequest;
use http_server::response::{push_decimal, write_response, ResponseSpec};
use http_server::router::Route;

fn reply(request: &str) -> Vec<u8> {
    handle_connection(request.as_bytes())
}

#[test]
fn root_is_ok_without_body() {
    assert_eq!(
        reply("GET / HTTP/1.1\r\nHost: x\r\n\r\n"),
        "HTTP/1.1 200 OK\r\nContent-Length: 0\r\n\r\n".as_bytes()
    );
}

#[test]
fn echo_returns_the_rest_of_the_target() {
    assert_eq!(
        reply("GET /echo/abc HTTP/1.1\r\nHost: x\r\n\r\n"),
        "HTTP/1.1 200 OK\r\nContent-Type: text/plain\r\nContent-Length: 3\r\n\r\nabc".as_bytes()
    );
}

#[test]
fn user_agent_returns_the_header_value() {
    assert_eq!(
        reply("GET /user-agent HTTP/1.1\r\nHost: x\r\nUser-Agent: curl/7.88\r\n\r\n"),
        "HTTP/1.1 200 OK\r\nContent-Type: text/plain\r\nContent-Length: 9\r\n\r\ncurl/7.88"
            .as_bytes()
    );
}

#[test]
fn unknown_target_is_not_found() {
    assert_eq!(
        reply("GET /nope HTTP/1.1\r\n\r\n"),
        "HTTP/1.1 404 Not Found\r\nContent-Length: 0\r\n\r\n".as_bytes()
    );
}

#[test]
fn other_method_is_not_found() {
    assert_eq!(
        reply("POST / HTTP/1.1\r\n\r\n"),
        "HTTP/1.1 404 Not Found\r\nContent-Length: 0\r\n\r\n".as_bytes()
    );
    assert_eq!(
        reply("POST /echo/abc HTTP/1.1\r\n\r\n"),
        "HTTP/1.1 404 Not Found\r\nContent-Length: 0\r\n\r\n".as_bytes()
    );
    assert_eq!(
        reply("get / HTTP/1.1\r\n\r\n"),
        "HTTP/1.1 404 Not Found\r\nContent-Length: 0\r\n\r\n".as_bytes()
    );
}

#[test]
fn garbage_is_a_bad_request() {
    assert_eq!(
        reply("garbage"),
        "HTTP/1.1 400 Bad Request\r\nContent-Length: 0\r\n\r\n".as_bytes()
    );
}

#[test]
fn user_agent_is_found_in_any_letter_case() {
    let expected =
        "HTTP/1.1 200 OK\r\nContent-Type: text/plain\r\nContent-Length: 1\r\n\r\nz".as_bytes();
    for name in ["User-Agent", "user-agent", "USER-AGENT", "uSeR-aGeNt"] {
        let request = format!("GET /user-agent HTTP/1.1\r\n{}: z\r\n\r\n", name);
        assert_eq!(reply(&request), expected);
    }
}

#[test]
fn user_agent_without_the_header_has_an_empty_body() {
    assert_eq!(
        reply("GET /user-agent HTTP/1.1\r\nHost: x\r\n\r\n"),
        "HTTP/1.1 200 OK\r\nContent-Length: 0\r\n\r\n".as_bytes()
    );
}

#[test]
fn user_agent_route_takes_any_target_with_that_start() {
    assert_eq!(
        reply("GET /user-agent/more HTTP/1.1\r\nUser-Agent: a\r\n\r\n"),
        "HTTP/1.1 200 OK\r\nContent-Type: text/plain\r\nContent-Length: 1\r\n\r\na".as_bytes()
    );
    assert_eq!(
        reply("GET /user-agen HTTP/1.1\r\nUser-Agent: a\r\n\r\n"),
        "HTTP/1.1 404 Not Found\r\nContent-Length: 0\r\n\r\n".as_bytes()
    );
}

#[test]
fn echo_of_nothing_has_no_media_type() {
    assert_eq!(
        reply("GET /echo/ HTTP/1.1\r\n\r\n"),
        "HTTP/1.1 200 OK\r\nContent-Length: 0\r\n\r\n".as_bytes()
    );
    assert_eq!(
        reply("GET /echo HTTP/1.1\r\n\r\n"),
        "HTTP/1.1 404 Not Found\r\nContent-Length: 0\r\n\r\n".as_bytes()
    );
}

#[test]
fn echo_does_not_decode_the_target() {
    assert_eq!(
        reply("GET /echo/a%20b/c?d=e HTTP/1.1\r\n\r\n"),
        "HTTP/1.1 200 OK\r\nContent-Type: text/plain\r\nContent-Length: 11\r\n\r\na%20b/c?d=e"
            .as_bytes()
    );
}

#[test]
fn echo_stops_at_whitespace_in_the_target() {
    assert_eq!(
        reply("GET /echo/a b HTTP/1.1\r\n\r\n"),
        "HTTP/1.1 200 OK\r\nContent-Type: text/plain\r\nContent-Length: 1\r\n\r\na".as_bytes()
    );
}

#[test]
fn echo_returns_every_segment_without_whitespace() {
    for segment in ["", "x", "abc", "a/b/c", "ümlaut", "a:b", "0123456789"] {
        let request = format!("GET /echo/{} HTTP/1.1\r\n\r\n", segment);
        let out = reply(&request);
        assert!(out.ends_with(segment.as_bytes()));
        let head = format!("Content-Length: {}\r\n\r\n", segment.len());
        let body_at = out.len() - segment.len();
        assert!(out[..body_at].ends_with(head.as_bytes()));
    }
}

#[test]
fn content_length_counts_the_bytes_of_the_body() {
    for n in [0usize, 1, 9, 10, 11, 99, 100, 101, 1000, 4096] {
        let body = vec![b'x'; n];
        let response = ResponseSpec::ok(&body);
        let out = response.to_bytes();
        let media = if n > 0 { "Content-Type: text/plain\r\n" } else { "" };
        let mut expected = format!("HTTP/1.1 200 OK\r\n{}Content-Length: {}\r\n\r\n", media, n)
            .into_bytes();
        expected.extend_from_slice(&body);
        assert_eq!(out, expected);
    }
}

#[test]
fn decimal_digits_are_exact() {
    for (n, text) in [
        (0usize, "0"),
        (7, "7"),
        (10, "10"),
        (42, "42"),
        (100, "100"),
        (909, "909"),
        (65535, "65535"),
        (1234567890, "1234567890"),
    ] {
        let mut out = b"n=".to_vec();
        push_decimal(&mut out, n);
        assert_eq!(out, format!("n={}", text).into_bytes());
    }
    let mut out = Vec::new();
    push_decimal(&mut out, usize::MAX);
    assert_eq!(out, usize::MAX.to_string().into_bytes());
}

#[test]
fn writer_appends_to_what_is_there() {
    let mut out = b"before".to_vec();
    write_response(&mut out, &ResponseSpec::not_found());
    assert_eq!(
        out,
        "beforeHTTP/1.1 404 Not Found\r\nContent-Length: 0\r\n\r\n".as_bytes()
    );
}

#[test]
fn writer_emits_the_media_type_that_the_response_carries() {
    let response = ResponseSpec {
        status_code: 201,
        reason_phrase: "Created",
        content_type: Some("application/json"),
        body: "{}".as_bytes(),
    };
    assert_eq!(
        response.to_bytes(),
        "HTTP/1.1 201 Created\r\nContent-Type: application/json\r\nContent-Length: 2\r\n\r\n{}"
            .as_bytes()
    );
}

#[test]
fn responses_have_their_fixed_parts() {
    let ok = ResponseSpec::ok("hi".as_bytes());
    assert_eq!(ok.status_code, 200);
    assert_eq!(ok.reason_phrase, "OK");
    assert_eq!(ok.content_type, Some("text/plain"));
    assert_eq!(ok.body, "hi".as_bytes());
    let empty = ResponseSpec::ok("".as_bytes());
    assert_eq!(empty.content_type, None);
    let missing = ResponseSpec::not_found();
    assert_eq!((missing.status_code, missing.reason_phrase), (404, "Not Found"));
    assert_eq!(missing.content_type, None);
    assert!(missing.body.is_empty());
    let bad = ResponseSpec::bad_request();
    assert_eq!((bad.status_code, bad.reason_phrase), (400, "Bad Request"));
    assert_eq!(bad.content_type, None);
    assert!(bad.body.is_empty());
}

#[test]
fn every_request_has_exactly_one_route() {
    let cases = [
        ("GET / HTTP/1.1\r\n\r\n", "root"),
        ("GET /echo/x HTTP/1.1\r\n\r\n", "echo"),
        ("GET /user-agent HTTP/1.1\r\n\r\n", "user-agent"),
        ("GET /echo HTTP/1.1\r\n\r\n", "none"),
        ("GET // HTTP/1.1\r\n\r\n", "none"),
        ("HEAD / HTTP/1.1\r\n\r\n", "none"),
        ("GET /User-Agent HTTP/1.1\r\n\r\n", "none"),
    ];
    for (text, expected) in cases {
        let request = HttpRequest::from_str(text.as_bytes()).unwrap();
        let name = match request.route() {
            Route::Root => "root",
            Route::Echo(rest) => {
                assert_eq!(rest, "x".as_bytes());
                "echo"
            }
            Route::UserAgent => "user-agent",
            Route::NotFound => "none",
        };
        assert_eq!(name, expected);
    }
}

#[test]
fn a_request_cut_short_by_the_read_limit_is_a_bad_request() {
    assert_eq!(MAX_REQUEST_BYTES, 8192);
    let mut request = "GET / HTTP/1.1\r\nX: ".as_bytes().to_vec();
    request.resize(MAX_REQUEST_BYTES, b'a');
    assert_eq!(
        handle_connection(&request),
        "HTTP/1.1 400 Bad Request\r\nContent-Length: 0\r\n\r\n".as_bytes()
    );
}

#[test]
fn bytes_after_the_head_do_not_change_the_reply() {
    assert_eq!(
        reply("GET /echo/abc HTTP/1.1\r\n\r\ntrailing\r\nbytes\0\0\0"),
        "HTTP/1.1 200 OK\r\nContent-Type: text/plain\r\nContent-Length: 3\r\n\r\nabc".as_bytes()
    );
}

#[test]
fn a_connection_runs_through_its_states_once() {
    let mut state = ConnectionState::Accepted;
    let mut seen = vec![state];
    while state != ConnectionState::Closed {
        state = state.next(false);
        seen.push(state);
    }
    assert_eq!(
        seen,
        vec![
            ConnectionState::Accepted,
            ConnectionState::Read,
            ConnectionState::Parsed,
            ConnectionState::Responded,
            ConnectionState::Closed,
        ]
    );
    assert_eq!(ConnectionState::Closed.next(false), ConnectionState::Closed);
}

#[test]
fn a_fault_closes_the_connection_from_every_state() {
    for state in [
        ConnectionState::Accepted,
        ConnectionState::Read,
        ConnectionState::Parsed,
        ConnectionState::Responded,
        ConnectionState::Closed,
    ] {
        assert_eq!(state.next(true), ConnectionState::Closed);
    }
}
