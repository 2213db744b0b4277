use http_server::request::{HttpRequest, RequestError};

fn b(text: &str) -> &[u8] {
    text.as_bytes()
}

#[test]
fn parse_request_line() {
    let input = "GET / HTTP/1.1\r\n";
    let expected = (b("GET"), b("/"));
    assert_eq!(
        HttpRequest::parse_request_line(input.as_bytes()),
        Ok((b(""), expected))
    );
}

#[test]
fn parse_header() {
    let input = "Host: localhost:4221";
    let expected = (b("Host"), b("localhost:4221"));
    assert_eq!(
        HttpRequest::parse_header(input.as_bytes()),
        Ok((b(""), expected))
    );
}

#[test]
fn parse_headers() {
    let input = "Host: localhost:4221\r\nUser-Agent: curl/7.68.0\r\nAccept: */*";
    let expected = vec![
        (b("Host"), b("localhost:4221")),
        (b("User-Agent"), b("curl/7.68.0")),
        (b("Accept"), b("*/*")),
    ];
    assert_eq!(
        HttpRequest::parse_headers(input.as_bytes()),
        Ok((b(""), expected))
    );
}

#[test]
fn request_line_returns_what_follows_the_line_end() {
    assert_eq!(
        HttpRequest::parse_request_line(b("GET /index.html HTTP/1.1\r\nHost: x\r\n\r\n")),
        Ok((b("Host: x\r\n\r\n"), (b("GET"), b("/index.html"))))
    );
}

#[test]
fn request_line_ends_at_the_first_line_end() {
    assert_eq!(
        HttpRequest::parse_request_line(b("PUT /a v\r\n\r\nPOST /b w\r\n")),
        Ok((b("\r\nPOST /b w\r\n"), (b("PUT"), b("/a"))))
    );
}

#[test]
fn request_line_takes_runs_of_spaces_and_tabs() {
    assert_eq!(
        HttpRequest::parse_request_line(b("GET \t /x  \tHTTP/1.1\r\n")),
        Ok((b(""), (b("GET"), b("/x"))))
    );
}

#[test]
fn request_line_does_not_look_at_the_version() {
    assert_eq!(
        HttpRequest::parse_request_line(b("GET / anything at all\r\n")),
        Ok((b(""), (b("GET"), b("/"))))
    );
    assert_eq!(
        HttpRequest::parse_request_line(b("GET / \r\n")),
        Ok((b(""), (b("GET"), b("/"))))
    );
}

#[test]
fn request_line_keeps_a_lone_carriage_return_in_the_target() {
    assert_eq!(
        HttpRequest::parse_request_line(b("GET /a\rb HTTP/1.1\r\n")),
        Ok((b(""), (b("GET"), b("/a\rb"))))
    );
}

#[test]
fn request_line_without_line_end_is_malformed() {
    assert_eq!(
        HttpRequest::parse_request_line(b("GET / HTTP/1.1")),
        Err(RequestError::Malformed)
    );
    assert_eq!(
        HttpRequest::parse_request_line(b("GET / HTTP/1.1\n")),
        Err(RequestError::Malformed)
    );
    assert_eq!(
        HttpRequest::parse_request_line(b("")),
        Err(RequestError::Malformed)
    );
}

#[test]
fn request_line_needs_method_target_and_separator() {
    for line in [
        "\r\n",
        "GET\r\n",
        "GET \r\n",
        "GET /\r\n",
        " GET / HTTP/1.1\r\n",
        "\tGET / HTTP/1.1\r\n",
    ] {
        assert_eq!(
            HttpRequest::parse_request_line(line.as_bytes()),
            Err(RequestError::Malformed)
        );
    }
}

#[test]
fn request_line_with_colon_in_method_is_malformed() {
    assert_eq!(
        HttpRequest::parse_request_line(b("GE:T / HTTP/1.1\r\n")),
        Err(RequestError::Malformed)
    );
    assert_eq!(
        HttpRequest::parse_request_line(b("GET http://x:80/ HTTP/1.1\r\n")),
        Ok((b(""), (b("GET"), b("http://x:80/"))))
    );
}

#[test]
fn header_stops_before_the_line_end() {
    assert_eq!(
        HttpRequest::parse_header(b("Host: x\r\nAccept: y\r\n\r\n")),
        Ok((b("\r\nAccept: y\r\n\r\n"), (b("Host"), b("x"))))
    );
}

#[test]
fn header_value_is_trimmed_at_both_ends() {
    assert_eq!(
        HttpRequest::parse_header(b("Host: \t  a b\tc \t ")),
        Ok((b(""), (b("Host"), b("a b\tc"))))
    );
    assert_eq!(
        HttpRequest::parse_header(b("Host:x")),
        Ok((b(""), (b("Host"), b("x"))))
    );
}

#[test]
fn header_value_may_be_empty() {
    assert_eq!(
        HttpRequest::parse_header(b("X-Empty:")),
        Ok((b(""), (b("X-Empty"), b(""))))
    );
    assert_eq!(
        HttpRequest::parse_header(b("X-Empty: \t \r\n")),
        Ok((b("\r\n"), (b("X-Empty"), b(""))))
    );
}

#[test]
fn header_splits_at_the_first_colon() {
    assert_eq!(
        HttpRequest::parse_header(b("a:b:c: d")),
        Ok((b(""), (b("a"), b("b:c: d"))))
    );
}

#[test]
fn header_without_colon_is_malformed() {
    assert_eq!(
        HttpRequest::parse_header(b("Host localhost")),
        Err(RequestError::Malformed)
    );
    assert_eq!(
        HttpRequest::parse_header(b("Host\r\nAccept: y")),
        Err(RequestError::Malformed)
    );
    assert_eq!(HttpRequest::parse_header(b("")), Err(RequestError::Malformed));
    assert_eq!(
        HttpRequest::parse_header(b("\r\n")),
        Err(RequestError::Malformed)
    );
}

#[test]
fn header_name_must_be_non_empty_and_free_of_whitespace() {
    for line in [": x", "Host : x", " Host: x", "Ho st: x", "Ho\tst: x"] {
        assert_eq!(
            HttpRequest::parse_header(line.as_bytes()),
            Err(RequestError::Malformed)
        );
    }
}

#[test]
fn headers_stop_at_the_line_end_that_no_header_follows() {
    assert_eq!(
        HttpRequest::parse_headers(b("A: 1\r\nB: 2\r\n\r\nbody")),
        Ok((b("\r\n\r\nbody"), vec![(b("A"), b("1")), (b("B"), b("2"))]))
    );
    assert_eq!(
        HttpRequest::parse_headers(b("A: 1\r\nnot a header\r\n\r\n")),
        Ok((b("\r\nnot a header\r\n\r\n"), vec![(b("A"), b("1"))]))
    );
}

#[test]
fn headers_may_be_none() {
    assert_eq!(
        HttpRequest::parse_headers(b("\r\nbody")),
        Ok((b("\r\nbody"), vec![]))
    );
    assert_eq!(HttpRequest::parse_headers(b("")), Ok((b(""), vec![])));
}

#[test]
fn headers_keep_order_and_duplicates() {
    assert_eq!(
        HttpRequest::parse_headers(b("X: 1\r\nY: 2\r\nX: 3")),
        Ok((
            b(""),
            vec![(b("X"), b("1")), (b("Y"), b("2")), (b("X"), b("3"))]
        ))
    );
}

#[test]
fn body_is_everything_that_is_left() {
    assert_eq!(
        HttpRequest::parse_body(b("a\r\n\r\nb")),
        Ok((b(""), b("a\r\n\r\nb")))
    );
    assert_eq!(HttpRequest::parse_body(b("")), Ok((b(""), b(""))));
}

#[test]
fn from_str_reads_the_whole_request() {
    let request =
        HttpRequest::from_str(b("GET /p HTTP/1.1\r\nHost: x\r\nAccept:  */* \r\n\r\nbody\r\n"))
            .unwrap();
    assert_eq!(request.method, b("GET"));
    assert_eq!(request.path, b("/p"));
    assert_eq!(
        request.headers,
        vec![(b("Host"), b("x")), (b("Accept"), b("*/*"))]
    );
    assert_eq!(request.body, b("body\r\n"));
}

#[test]
fn from_str_accepts_a_request_without_headers() {
    let request = HttpRequest::from_str(b("GET /nope HTTP/1.1\r\n\r\n")).unwrap();
    assert_eq!(request.method, b("GET"));
    assert_eq!(request.path, b("/nope"));
    assert!(request.headers.is_empty());
    assert_eq!(request.body, b(""));
}

#[test]
fn from_str_keeps_a_body_that_looks_like_a_header() {
    let request = HttpRequest::from_str(b("POST / HTTP/1.1\r\nA: 1\r\n\r\nB: 2\r\n\r\n")).unwrap();
    assert_eq!(request.headers, vec![(b("A"), b("1"))]);
    assert_eq!(request.body, b("B: 2\r\n\r\n"));
    let request = HttpRequest::from_str(b("POST / HTTP/1.1\r\n\r\nB: 2\r\n\r\n")).unwrap();
    assert!(request.headers.is_empty());
    assert_eq!(request.body, b("B: 2\r\n\r\n"));
}

#[test]
fn from_str_does_not_decode_the_body() {
    let mut bytes = b("GET / HTTP/1.1\r\n\r\n").to_vec();
    bytes.extend_from_slice(&[0xff, 0x00, 0xfe]);
    let request = HttpRequest::from_str(&bytes).unwrap();
    assert_eq!(request.body, &[0xff, 0x00, 0xfe]);
}

#[test]
fn from_str_rejects_what_the_grammar_does_not_allow() {
    for text in [
        "",
        "garbage",
        "GET / HTTP/1.1",
        "GET / HTTP/1.1\r\n",
        "GET / HTTP/1.1\r\nHost: x",
        "GET / HTTP/1.1\r\nHost: x\r\n",
        "GET / HTTP/1.1\r\nHost: x\r\nbody",
        "GET / HTTP/1.1\r\nno colon here\r\n\r\n",
        "GET / HTTP/1.1\r\nHost: x\r\nno colon here\r\n\r\n",
        "GET / HTTP/1.1\r\nHost : x\r\n\r\n",
        "GET / HTTP/1.1\r\n: x\r\n\r\n",
        "GET /\r\n\r\n",
        "GET\r\n\r\n",
        "\r\n\r\n",
        "GET / HTTP/1.1\n\n",
    ] {
        assert!(matches!(
            HttpRequest::from_str(text.as_bytes()),
            Err(RequestError::Malformed)
        ));
    }
}

#[test]
fn header_lookup_ignores_letter_case_and_takes_the_first() {
    let request = HttpRequest::from_str(b(
        "GET / HTTP/1.1\r\nuser-AGENT: first\r\nUser-Agent: second\r\n\r\n",
    ))
    .unwrap();
    assert_eq!(request.header(b("User-Agent")), Some(b("first")));
    assert_eq!(request.header(b("USER-AGENT")), Some(b("first")));
    assert_eq!(request.header(b("user-agent")), Some(b("first")));
    assert_eq!(request.header(b("User_Agent")), None);
    assert_eq!(request.header(b("User-Agen")), None);
    assert_eq!(request.header(b("")), None);
}
