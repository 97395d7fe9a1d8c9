use http_server::connection::{Connection, Phase, Step, MAX_REQUEST_BYTES};
use http_server::request::{headers_of, is_complete, Headers, Method, ParseError, Request};
use http_server::response::{Body, Response, Status};
use http_server::router::{after_load, after_store, route, Action, FileRead, ServeError};

fn parse(bytes: &[u8]) -> Request {
    match Request::read(bytes) {
        Ok(r) => r,
        Err(e) => panic!("parse failed: {:?}", e),
    }
}

fn respond(bytes: &[u8]) -> Vec<u8> {
    let req = parse(bytes);
    match route(&req) {
        Ok(Action::Respond(resp)) => resp.to_bytes(),
        other => panic!("expected a response, got {:?}", other),
    }
}

/// Runs one connection to its end, serving files from `files`.
fn exchange(input: &[u8], files: &mut Vec<(Vec<u8>, Vec<u8>)>) -> (Phase, Vec<u8>) {
    let mut conn = Connection::new();
    let mut sent = Vec::new();
    let mut step = conn.on_received(input);
    if let Step::ReadMore = step {
        step = conn.on_end_of_input();
    }
    loop {
        step = match step {
            Step::ReadMore => conn.on_end_of_input(),
            Step::Load(name) => {
                let found = files.iter().find(|(n, _)| *n == name).map(|(_, c)| c.clone());
                match found {
                    Some(c) => conn.on_loaded(FileRead::Loaded(c)),
                    None => conn.on_loaded(FileRead::NotFound),
                }
            }
            Step::Store(name, content) => {
                files.retain(|(n, _)| *n != name);
                files.push((name, content));
                conn.on_stored(true)
            }
            Step::Send(bytes) => {
                sent.extend_from_slice(&bytes);
                conn.on_sent()
            }
            Step::Close | Step::Abort(_) => return (conn.phase, sent),
        };
    }
}

#[test]
fn status_lines() {
    assert_eq!(Response::with_status(Status::Success).to_bytes(), b"HTTP/1.1 200 OK\r\n\r\n".to_vec());
    assert_eq!(Response::with_status(Status::Created).to_bytes(), b"HTTP/1.1 201 Created\r\n\r\n".to_vec());
    assert_eq!(
        Response::with_status(Status::BadRequest).to_bytes(),
        b"HTTP/1.1 400 Bad Request\r\n\r\n".to_vec()
    );
    assert_eq!(
        Response::with_status(Status::NotFound).to_bytes(),
        b"HTTP/1.1 404 Not Found\r\n\r\n".to_vec()
    );
}

#[test]
fn body_serialization() {
    let resp = Response::from_status_and_body(Status::Success, Body::new("text/plain", b"hello"));
    assert_eq!(
        resp.to_bytes(),
        b"HTTP/1.1 200 OK\r\nContent-Type: text/plain\r\nContent-Length: 5\r\n\r\nhello".to_vec()
    );
}

#[test]
fn body_write_appends() {
    let mut out = b"x".to_vec();
    Body::new("a/b", b"").write(&mut out);
    assert_eq!(out, b"xContent-Type: a/b\r\nContent-Length: 0\r\n\r\n".to_vec());
    let mut out2 = Vec::new();
    Response::with_status(Status::NotFound).write(&mut out2);
    assert_eq!(out2, b"HTTP/1.1 404 Not Found\r\n\r\n".to_vec());
}

#[test]
fn content_length_multi_digit() {
    let content = vec![7u8; 1234];
    let bytes = Response::from_status_and_body(Status::Success, Body::new("application/octet-stream", &content)).to_bytes();
    let head = b"HTTP/1.1 200 OK\r\nContent-Type: application/octet-stream\r\nContent-Length: 1234\r\n\r\n";
    assert_eq!(&bytes[..head.len()], &head[..]);
    assert_eq!(bytes.len(), head.len() + 1234);
}

#[test]
fn bodiless_response_has_one_blank_line() {
    let bytes = Response::with_status(Status::Success).to_bytes();
    let text = String::from_utf8(bytes).unwrap();
    assert!(!text.contains("Content-Type"));
    assert!(!text.contains("Content-Length"));
    assert!(text.ends_with("\r\n\r\n"));
    assert_eq!(text.matches("\r\n").count(), 2);
}

#[test]
fn parse_full_request() {
    let req = parse(b"POST /files/a HTTP/1.1\r\nHost: x\r\nContent-Length: 3\r\n\r\nabcdef");
    assert_eq!(req.method, Method::Post);
    assert_eq!(req.path, b"/files/a".to_vec());
    assert_eq!(req.headers.get(b"host"), Some(&b"x".to_vec()));
    assert_eq!(req.content, Some(b"abc".to_vec()));
}

#[test]
fn body_runs_to_the_end_without_content_length() {
    let req = parse(b"POST /files/a HTTP/1.1\r\n\r\nab\r\n\r\ncd");
    assert_eq!(req.content, Some(b"ab\r\n\r\ncd".to_vec()));
}

#[test]
fn body_absent_without_trailing_bytes() {
    assert_eq!(parse(b"GET / HTTP/1.1\r\n\r\n").content, None);
    assert_eq!(parse(b"GET / HTTP/1.1\r\n").content, None);
    assert_eq!(parse(b"POST / HTTP/1.1\r\nContent-Length: 0\r\n\r\nxyz").content, None);
}

#[test]
fn invalid_content_length_is_ignored() {
    let req = parse(b"POST / HTTP/1.1\r\nContent-Length: 2x\r\n\r\nxyz");
    assert_eq!(req.content, Some(b"xyz".to_vec()));
    let req = parse(b"POST / HTTP/1.1\r\nContent-Length: 99999999999999999999999\r\n\r\nxyz");
    assert_eq!(req.content, Some(b"xyz".to_vec()));
}

#[test]
fn header_names_are_lower_cased_and_last_wins() {
    let req = parse(b"GET / HTTP/1.1\r\nX-Thing: one\r\nx-thing: two\r\nbroken line\r\nA:no-space\r\n\r\n");
    assert_eq!(req.headers.get(b"x-thing"), Some(&b"two".to_vec()));
    assert_eq!(req.headers.get(b"X-Thing"), None);
    assert_eq!(req.headers.get(b"a"), None);
    assert_eq!(req.headers.get(b"broken line"), None);
}

#[test]
fn header_value_keeps_later_separators() {
    let req = parse(b"GET / HTTP/1.1\r\nKey: a: b\r\n\r\n");
    assert_eq!(req.headers.get(b"key"), Some(&b"a: b".to_vec()));
}

#[test]
fn lines_may_end_in_bare_line_feeds() {
    let req = parse(b"GET /x HTTP/1.1\nHost: h\n\r\n\r\n");
    assert_eq!(req.path, b"/x".to_vec());
    assert_eq!(req.headers.get(b"host"), Some(&b"h".to_vec()));
}

#[test]
fn request_line_tokens_are_runs_of_non_whitespace() {
    let req = parse(b"GET\t/p HTTP/1.1 extra\r\n\r\n");
    assert_eq!(req.path, b"/p".to_vec());
    let req = parse("GET\u{a0}/q\u{3000}HTTP/1.1\r\n\r\n".as_bytes());
    assert_eq!(req.path, b"/q".to_vec());
    let req = parse(b"GET  / HTTP/1.1\r\n\r\n");
    assert_eq!(req.path, b"/".to_vec());
    let req = parse(b" GET /r  HTTP/1.1\r\n\r\n");
    assert_eq!(req.method, Method::Get);
    assert_eq!(req.path, b"/r".to_vec());
}

#[test]
fn two_tokens_and_trailing_space_are_malformed() {
    assert_eq!(Request::read(b"GET / \r\n\r\n").err(), Some(ParseError::MalformedRequestLine));
    assert_eq!(Request::read(b"GET  /\r\n\r\n").err(), Some(ParseError::MalformedRequestLine));
    assert_eq!(Request::read(b" \r\n\r\n").err(), Some(ParseError::MalformedRequestLine));
    let mut files = Vec::new();
    let (phase, sent) = exchange(b"GET / \r\n\r\n", &mut files);
    assert_eq!(phase, Phase::Failed);
    assert!(sent.is_empty());
}

#[test]
fn non_ascii_header_names_are_lower_cased() {
    let req = parse("GET / HTTP/1.1\r\n\u{c4}: v\r\nUSER-AGENT: u\r\n\r\n".as_bytes());
    assert_eq!(req.headers.get("\u{e4}".as_bytes()), Some(&b"v".to_vec()));
    assert_eq!(req.headers.get("\u{c4}".as_bytes()), None);
    assert_eq!(req.headers.get(b"user-agent"), Some(&b"u".to_vec()));
}

#[test]
fn encoding_error() {
    assert_eq!(Request::read(b"GET / HTTP/1.1\r\n\r\n\xff").err(), Some(ParseError::Encoding));
}

#[test]
fn malformed_request_lines() {
    assert_eq!(Request::read(b"GET\r\n\r\n").err(), Some(ParseError::MalformedRequestLine));
    assert_eq!(Request::read(b"GET /\r\n\r\n").err(), Some(ParseError::MalformedRequestLine));
    assert_eq!(Request::read(b"").err(), Some(ParseError::MalformedRequestLine));
    assert_eq!(Request::read(b"\r\n\r\nGET / HTTP/1.1").err(), Some(ParseError::MalformedRequestLine));
}

#[test]
fn unsupported_method_error() {
    assert_eq!(Request::read(b"PUT / HTTP/1.1\r\n\r\n").err(), Some(ParseError::UnsupportedMethod));
    assert_eq!(Request::read(b"get / HTTP/1.1\r\n\r\n").err(), Some(ParseError::UnsupportedMethod));
}

#[test]
fn root_is_ok() {
    assert_eq!(respond(b"GET / HTTP/1.1\r\n\r\n"), b"HTTP/1.1 200 OK\r\n\r\n".to_vec());
}

#[test]
fn echo_returns_rest_of_path() {
    assert_eq!(
        respond(b"GET /echo/abc HTTP/1.1\r\n\r\n"),
        b"HTTP/1.1 200 OK\r\nContent-Type: text/plain\r\nContent-Length: 3\r\n\r\nabc".to_vec()
    );
    assert_eq!(
        respond(b"GET /echo/a//b/ HTTP/1.1\r\n\r\n"),
        b"HTTP/1.1 200 OK\r\nContent-Type: text/plain\r\nContent-Length: 5\r\n\r\na//b/".to_vec()
    );
    assert_eq!(
        respond(b"GET /echo HTTP/1.1\r\n\r\n"),
        b"HTTP/1.1 200 OK\r\nContent-Type: text/plain\r\nContent-Length: 0\r\n\r\n".to_vec()
    );
}

#[test]
fn user_agent_is_echoed() {
    assert_eq!(
        respond(b"GET /user-agent HTTP/1.1\r\nHost: h\r\nUser-Agent: curl/7.64.1\r\n\r\n"),
        b"HTTP/1.1 200 OK\r\nContent-Type: text/plain\r\nContent-Length: 11\r\n\r\ncurl/7.64.1".to_vec()
    );
}

#[test]
fn missing_user_agent_fails() {
    let req = parse(b"GET /user-agent HTTP/1.1\r\n\r\n");
    assert_eq!(route(&req).err(), Some(ServeError::MissingHeader));
    let mut files = Vec::new();
    let (phase, sent) = exchange(b"GET /user-agent HTTP/1.1\r\n\r\n", &mut files);
    assert_eq!(phase, Phase::Failed);
    assert!(sent.is_empty());
}

#[test]
fn unknown_route_is_not_found() {
    assert_eq!(respond(b"GET /nothing HTTP/1.1\r\n\r\n"), b"HTTP/1.1 404 Not Found\r\n\r\n".to_vec());
    assert_eq!(respond(b"POST /echo/x HTTP/1.1\r\n\r\n"), b"HTTP/1.1 404 Not Found\r\n\r\n".to_vec());
}

#[test]
fn files_route_actions() {
    match route(&parse(b"GET /files/foo HTTP/1.1\r\n\r\n")) {
        Ok(Action::Load(name)) => assert_eq!(name, b"foo".to_vec()),
        other => panic!("{:?}", other),
    }
    match route(&parse(b"POST /files/foo HTTP/1.1\r\n\r\nbar")) {
        Ok(Action::Store(name, content)) => {
            assert_eq!(name, b"foo".to_vec());
            assert_eq!(content, b"bar".to_vec());
        }
        other => panic!("{:?}", other),
    }
}

#[test]
fn traversal_names_are_refused() {
    assert_eq!(respond(b"GET /files/.. HTTP/1.1\r\n\r\n"), b"HTTP/1.1 404 Not Found\r\n\r\n".to_vec());
    assert_eq!(respond(b"GET /files/ HTTP/1.1\r\n\r\n"), b"HTTP/1.1 404 Not Found\r\n\r\n".to_vec());
    assert_eq!(
        respond(b"POST /files/.. HTTP/1.1\r\n\r\ndata"),
        b"HTTP/1.1 400 Bad Request\r\n\r\n".to_vec()
    );
}

#[test]
fn post_without_body_is_bad_request() {
    assert_eq!(
        respond(b"POST /files/f HTTP/1.1\r\n\r\n"),
        b"HTTP/1.1 400 Bad Request\r\n\r\n".to_vec()
    );
    let mut files = vec![(b"f".to_vec(), b"old".to_vec())];
    let (phase, sent) = exchange(b"POST /files/f HTTP/1.1\r\nContent-Length: 0\r\n\r\n", &mut files);
    assert_eq!(phase, Phase::Closed);
    assert_eq!(sent, b"HTTP/1.1 400 Bad Request\r\n\r\n".to_vec());
    assert_eq!(files, vec![(b"f".to_vec(), b"old".to_vec())]);
}

#[test]
fn store_then_load_round_trip() {
    let mut files = Vec::new();
    let (phase, sent) = exchange(b"POST /files/data HTTP/1.1\r\nContent-Length: 4\r\n\r\n\x00\x01\x02\x03", &mut files);
    assert_eq!(phase, Phase::Closed);
    assert_eq!(sent, b"HTTP/1.1 201 Created\r\n\r\n".to_vec());
    let (phase, sent) = exchange(b"GET /files/data HTTP/1.1\r\n\r\n", &mut files);
    assert_eq!(phase, Phase::Closed);
    assert_eq!(
        sent,
        b"HTTP/1.1 200 OK\r\nContent-Type: application/octet-stream\r\nContent-Length: 4\r\n\r\n\x00\x01\x02\x03".to_vec()
    );
}

#[test]
fn missing_file_is_not_found() {
    let mut files = Vec::new();
    let (phase, sent) = exchange(b"GET /files/missing HTTP/1.1\r\n\r\n", &mut files);
    assert_eq!(phase, Phase::Closed);
    assert_eq!(sent, b"HTTP/1.1 404 Not Found\r\n\r\n".to_vec());
}

#[test]
fn file_outcomes() {
    assert_eq!(after_load(FileRead::Failed).err(), Some(ServeError::Io));
    assert_eq!(after_store(false).err(), Some(ServeError::Io));
    assert_eq!(after_store(true).unwrap().to_bytes(), b"HTTP/1.1 201 Created\r\n\r\n".to_vec());
    assert_eq!(
        after_load(FileRead::Loaded(b"zz".to_vec())).unwrap().to_bytes(),
        b"HTTP/1.1 200 OK\r\nContent-Type: application/octet-stream\r\nContent-Length: 2\r\n\r\nzz".to_vec()
    );
}

#[test]
fn unsupported_method_gets_not_found() {
    let mut files = Vec::new();
    let (phase, sent) = exchange(b"PUT / HTTP/1.1\r\n\r\n", &mut files);
    assert_eq!(phase, Phase::Closed);
    assert_eq!(sent, b"HTTP/1.1 404 Not Found\r\n\r\n".to_vec());
}

#[test]
fn malformed_request_closes_without_response() {
    let mut files = Vec::new();
    let (phase, sent) = exchange(b"GET\r\n\r\n", &mut files);
    assert_eq!(phase, Phase::Failed);
    assert!(sent.is_empty());
    let (phase, sent) = exchange(b"GET / HTTP/1.1\r\n\r\n", &mut files);
    assert_eq!(phase, Phase::Closed);
    assert_eq!(sent, b"HTTP/1.1 200 OK\r\n\r\n".to_vec());
}

#[test]
fn reading_waits_for_the_whole_request() {
    assert!(!is_complete(b"GET / HTTP/1.1\r\nHost: x\r\n"));
    assert!(is_complete(b"GET / HTTP/1.1\r\n\r\n"));
    assert!(!is_complete(b"POST /files/a HTTP/1.1\r\nContent-Length: 5\r\n\r\nab"));
    assert!(is_complete(b"POST /files/a HTTP/1.1\r\nContent-Length: 5\r\n\r\nabcde"));
    let mut conn = Connection::new();
    assert!(matches!(conn.on_received(b"POST /files/a HTTP/1.1\r\nContent-Length: 5\r\n\r\nab"), Step::ReadMore));
    assert_eq!(conn.phase, Phase::Reading);
    match conn.on_received(b"cde") {
        Step::Store(name, content) => {
            assert_eq!(name, b"a".to_vec());
            assert_eq!(content, b"abcde".to_vec());
        }
        other => panic!("{:?}", other),
    }
    assert_eq!(conn.phase, Phase::Dispatching);
}

#[test]
fn incomplete_request_that_fills_the_buffer_fails() {
    let mut conn = Connection::new();
    let mut head = b"POST /files/big HTTP/1.1\r\nContent-Length: 2000000\r\n\r\n".to_vec();
    head.extend(vec![b'a'; MAX_REQUEST_BYTES]);
    assert!(matches!(conn.on_received(&head), Step::Abort(ServeError::TooLarge)));
    assert_eq!(conn.phase, Phase::Failed);
    let mut conn = Connection::new();
    let big = vec![b'a'; MAX_REQUEST_BYTES];
    assert!(matches!(conn.on_received(&big), Step::Abort(ServeError::TooLarge)));
}

#[test]
fn misplaced_events_fail_the_connection() {
    let mut conn = Connection::new();
    assert!(matches!(conn.on_sent(), Step::Abort(ServeError::UnexpectedEvent)));
    assert_eq!(conn.phase, Phase::Failed);
    let mut conn = Connection::new();
    conn.on_received(b"GET / HTTP/1.1\r\n\r\n");
    assert_eq!(conn.phase, Phase::Sending);
    conn.on_sent();
    assert_eq!(conn.phase, Phase::Closed);
    assert!(matches!(conn.on_transport_failure(), Step::Close));
    assert_eq!(conn.phase, Phase::Closed);
}

#[test]
fn failures_carry_their_reason() {
    let mut conn = Connection::new();
    assert!(matches!(
        conn.on_received(b"GET /user-agent HTTP/1.1\r\n\r\n"),
        Step::Abort(ServeError::MissingHeader)
    ));
    let mut conn = Connection::new();
    assert!(matches!(
        conn.on_received(b"GET / HTTP/1.1\r\n\r\n\xc3"),
        Step::Abort(ServeError::Parse(ParseError::Encoding))
    ));
    let mut conn = Connection::new();
    assert!(matches!(conn.on_received(b"GET /files/x HTTP/1.1\r\n\r\n"), Step::Load(_)));
    assert!(matches!(conn.on_loaded(FileRead::Failed), Step::Abort(ServeError::Io)));
    assert_eq!(conn.phase, Phase::Failed);
    let mut conn = Connection::new();
    assert!(matches!(conn.on_received(b"GET /"), Step::ReadMore));
    assert!(matches!(conn.on_transport_failure(), Step::Abort(ServeError::Transport)));
    assert_eq!(conn.phase, Phase::Failed);
}

#[test]
fn headers_map_operations() {
    let mut h = Headers::new();
    assert_eq!(h.get(b"a"), None);
    h.insert(b"a".to_vec(), b"1".to_vec());
    h.insert(b"a".to_vec(), b"2".to_vec());
    assert_eq!(h.get(b"a"), Some(&b"2".to_vec()));
    let parsed = headers_of(b"GET / HTTP/1.1\r\nContent-Length: 12");
    assert_eq!(parsed.get(b"content-length"), Some(&b"12".to_vec()));
}

#[test]
fn method_tokens() {
    assert_eq!(Method::from_token(b"GET"), Some(Method::Get));
    assert_eq!(Method::from_token(b"POST"), Some(Method::Post));
    assert_eq!(Method::from_token(b"PUT"), None);
}
