//! Routing: from a parsed request to a response, or to the file operation
//! whose outcome decides the response.

use vstd::prelude::*;
use vstd::utf8::{encode_utf8, valid_utf8};
use crate::bytes::{
    copy_range, decimal, find, first_occurrence, lemma_first_occurrence, occurs_at,
    same_bytes,
};
use crate::request::{
    colon_space, header_field, lemma_header_line, name_key, Method, ParseError, Request, RequestView,
};
use crate::response::{
    content_length_prefix, content_type_prefix, crlf, protocol_prefix, status_text, wire_of, Body,
    Response, ResponseView, Status,
};

verus! {

/// Why a connection ends without a complete exchange.
#[derive(Clone, Copy, Debug, PartialEq, Eq, Structural)]
pub enum ServeError {
    /// The bytes read do not hold a request.
    Parse(ParseError),
    /// A route needs a header that the request lacks.
    MissingHeader,
    /// Reading or writing a file failed for another reason than its absence.
    Io,
    /// The connection could not be read or written.
    Transport,
    /// The request does not fit in the buffer.
    TooLarge,
    /// The connection was told of an event that does not fit its phase.
    UnexpectedEvent,
}

/// `/`
pub open spec fn slash() -> Seq<u8> {
    seq![47]
}

/// `echo`
pub open spec fn echo_route() -> Seq<u8> {
    seq![101, 99, 104, 111]
}

/// `user-agent`, the route and the header name alike.
pub open spec fn user_agent() -> Seq<u8> {
    seq![117, 115, 101, 114, 45, 97, 103, 101, 110, 116]
}

/// `files`
pub open spec fn files_route() -> Seq<u8> {
    seq![102, 105, 108, 101, 115]
}

/// The first index at or after `from` that holds no `/`; the length if none.
pub open spec fn first_non_slash(p: Seq<u8>, from: int) -> int
    decreases p.len() - from,
{
    if from < 0 || from >= p.len() {
        p.len() as int
    } else if p[from] != 47 {
        from
    } else {
        first_non_slash(p, from + 1)
    }
}

/// Where the path segment that starts at `from` ends.
pub open spec fn segment_end(p: Seq<u8>, from: int) -> int {
    match first_occurrence(p, slash(), from) {
        Some(e) => e,
        None => p.len() as int,
    }
}

/// The first non-empty segment of a path, which selects the route, and the
/// segments after it joined again with `/`. None for a path with no
/// non-empty segment.
pub open spec fn route_of(p: Seq<u8>) -> Option<(Seq<u8>, Seq<u8>)> {
    let i = first_non_slash(p, 0);
    if i >= p.len() {
        None
    } else {
        let e = segment_end(p, i);
        Some(
            (
                p.subrange(i, e),
                if e < p.len() {
                    p.subrange(e + 1, p.len() as int)
                } else {
                    seq![]
                },
            ),
        )
    }
}

/// The first segment of what follows the route.
pub open spec fn first_segment(rest: Seq<u8>) -> Seq<u8> {
    rest.subrange(0, segment_end(rest, 0))
}

/// A file name that stays inside the serving directory: not empty, not `.`
/// and not `..` (a segment holds no `/`).
pub open spec fn safe_name(f: Seq<u8>) -> bool {
    f.len() > 0 && f != seq![46u8] && f != seq![46u8, 46u8]
}

/// What a request leads to, as a mathematical value.
pub enum Dispatch {
    /// Answer at once.
    Reply(ResponseView),
    /// Read the named file of the serving directory.
    Load(Seq<u8>),
    /// Write the content to the named file of the serving directory.
    Store(Seq<u8>, Seq<u8>),
}

pub open spec fn reply(status: Status) -> Dispatch {
    Dispatch::Reply(ResponseView { status, body: None })
}

pub open spec fn text_reply(content: Seq<u8>) -> Dispatch {
    Dispatch::Reply(ResponseView { status: Status::Success, body: Some(("text/plain"@, content)) })
}

/// The routing table.
pub open spec fn dispatch(r: RequestView) -> Result<Dispatch, ServeError> {
    match route_of(r.path) {
        None => if r.method == Method::Get {
            Ok(reply(Status::Success))
        } else {
            Ok(reply(Status::NotFound))
        },
        Some((name, rest)) => if r.method == Method::Get && name == echo_route() {
            Ok(text_reply(rest))
        } else if r.method == Method::Get && name == user_agent() {
            if r.headers.contains_key(user_agent()) {
                Ok(text_reply(r.headers[user_agent()]))
            } else {
                Err(ServeError::MissingHeader)
            }
        } else if r.method == Method::Get && name == files_route() {
            if safe_name(first_segment(rest)) {
                Ok(Dispatch::Load(first_segment(rest)))
            } else {
                Ok(reply(Status::NotFound))
            }
        } else if r.method == Method::Post && name == files_route() {
            match r.content {
                Some(c) => if c.len() > 0 && safe_name(first_segment(rest)) {
                    Ok(Dispatch::Store(first_segment(rest), c))
                } else {
                    Ok(reply(Status::BadRequest))
                },
                None => Ok(reply(Status::BadRequest)),
            }
        } else {
            Ok(reply(Status::NotFound))
        },
    }
}

/// What a request leads to.
#[derive(Debug)]
pub enum Action {
    Respond(Response),
    /// Read this file of the serving directory.
    Load(Vec<u8>),
    /// Write a file of the serving directory: its name, then its content.
    Store(Vec<u8>, Vec<u8>),
}

impl View for Action {
    type V = Dispatch;

    open spec fn view(&self) -> Dispatch {
        match self {
            Action::Respond(r) => Dispatch::Reply(r@),
            Action::Load(f) => Dispatch::Load(f@),
            Action::Store(f, c) => Dispatch::Store(f@, c@),
        }
    }
}

pub open spec fn routed_view(r: Result<Action, ServeError>) -> Result<Dispatch, ServeError> {
    match r {
        Ok(a) => Ok(a@),
        Err(e) => Err(e),
    }
}

proof fn lemma_first_non_slash(p: Seq<u8>, from: int)
    requires
        0 <= from,
    ensures
        first_non_slash(p, from) < p.len() ==> from <= first_non_slash(p, from),
    decreases p.len() - from,
{
    if from < p.len() && p[from] == 47 {
        lemma_first_non_slash(p, from + 1);
    }
}

fn find_non_slash(p: &[u8]) -> (r: usize)
    ensures
        r == first_non_slash(p@, 0),
{
    let mut i: usize = 0;
    while i < p.len()
        invariant
            i <= p@.len(),
            first_non_slash(p@, 0) == first_non_slash(p@, i as int),
        decreases p@.len() - i,
    {
        if p[i] != 47 {
            return i;
        }
        i = i + 1;
    }
    p.len()
}

fn find_segment_end(p: &[u8], from: usize) -> (r: usize)
    requires
        from <= p@.len(),
    ensures
        r == segment_end(p@, from as int),
        from <= r <= p@.len(),
{
    let sl: Vec<u8> = vec![47];
    assert(sl@ == slash());
    proof {
        lemma_first_occurrence(p@, slash(), from as int);
    }
    match find(p, sl.as_slice(), from) {
        Some(e) => e,
        None => p.len(),
    }
}

/// The route segment and the rest of the path.
fn split_route(p: &[u8]) -> (r: Option<(Vec<u8>, Vec<u8>)>)
    ensures
        match route_of(p@) {
            Some((name, rest)) => r matches Some((rn, rr)) && rn@ == name && rr@ == rest,
            None => r is None,
        },
{
    let i = find_non_slash(p);
    if i >= p.len() {
        return None;
    }
    proof {
        lemma_first_non_slash(p@, 0);
    }
    let e = find_segment_end(p, i);
    let name = copy_range(p, i, e);
    let rest = if e < p.len() {
        copy_range(p, e + 1, p.len())
    } else {
        Vec::new()
    };
    Some((name, rest))
}

fn is_safe_name(f: &[u8]) -> (r: bool)
    ensures
        r == safe_name(f@),
{
    let dot: Vec<u8> = vec![46];
    let dots: Vec<u8> = vec![46, 46];
    assert(dot@ == seq![46u8]);
    assert(dots@ == seq![46u8, 46u8]);
    f.len() > 0 && !same_bytes(f, dot.as_slice()) && !same_bytes(f, dots.as_slice())
}

fn text_response(content: &[u8]) -> (r: Response)
    ensures
        Dispatch::Reply(r@) == text_reply(content@),
{
    Response::from_status_and_body(Status::Success, Body::new("text/plain", content))
}

/// Decides what a request leads to.
pub fn route(req: &Request) -> (r: Result<Action, ServeError>)
    ensures
        routed_view(r) == dispatch(req@),
{
    let (name, rest) = match split_route(req.path.as_slice()) {
        Some(nr) => nr,
        None => {
            let status = match req.method {
                Method::Get => Status::Success,
                Method::Post => Status::NotFound,
            };
            return Ok(Action::Respond(Response::with_status(status)));
        },
    };
    let echo: Vec<u8> = vec![101, 99, 104, 111];
    let ua: Vec<u8> = vec![117, 115, 101, 114, 45, 97, 103, 101, 110, 116];
    let files: Vec<u8> = vec![102, 105, 108, 101, 115];
    assert(echo@ == echo_route());
    assert(ua@ == user_agent());
    assert(files@ == files_route());
    let is_get = match req.method {
        Method::Get => true,
        Method::Post => false,
    };
    let is_files = same_bytes(name.as_slice(), files.as_slice());
    if is_get && same_bytes(name.as_slice(), echo.as_slice()) {
        Ok(Action::Respond(text_response(rest.as_slice())))
    } else if is_get && same_bytes(name.as_slice(), ua.as_slice()) {
        match req.headers.get(ua.as_slice()) {
            Some(v) => Ok(Action::Respond(text_response(v.as_slice()))),
            None => Err(ServeError::MissingHeader),
        }
    } else if is_files {
        let end = find_segment_end(rest.as_slice(), 0);
        let file = copy_range(rest.as_slice(), 0, end);
        let safe = is_safe_name(file.as_slice());
        if is_get {
            if safe {
                Ok(Action::Load(file))
            } else {
                Ok(Action::Respond(Response::with_status(Status::NotFound)))
            }
        } else {
            match &req.content {
                Some(c) => if c.len() > 0 && safe {
                    assert(c@.subrange(0, c@.len() as int) =~= c@);
                    Ok(Action::Store(file, copy_range(c.as_slice(), 0, c.len())))
                } else {
                    Ok(Action::Respond(Response::with_status(Status::BadRequest)))
                },
                None => Ok(Action::Respond(Response::with_status(Status::BadRequest))),
            }
        }
    } else {
        Ok(Action::Respond(Response::with_status(Status::NotFound)))
    }
}

/// How reading a file went.
#[derive(Debug)]
pub enum FileRead {
    Loaded(Vec<u8>),
    NotFound,
    Failed,
}

pub open spec fn response_result(r: Result<Response, ServeError>) -> Result<ResponseView, ServeError> {
    match r {
        Ok(resp) => Ok(resp@),
        Err(e) => Err(e),
    }
}

/// The response to a file read: its bytes, or 404 for a file that is not
/// there; any other failure ends the connection.
pub open spec fn loaded(outcome: FileRead) -> Result<ResponseView, ServeError> {
    match outcome {
        FileRead::Loaded(b) => Ok(
            ResponseView { status: Status::Success, body: Some(("application/octet-stream"@, b@)) },
        ),
        FileRead::NotFound => Ok(ResponseView { status: Status::NotFound, body: None }),
        FileRead::Failed => Err(ServeError::Io),
    }
}

/// The response to a file write: 201 once it is stored; a failure ends the
/// connection.
pub open spec fn stored(ok: bool) -> Result<ResponseView, ServeError> {
    if ok {
        Ok(ResponseView { status: Status::Created, body: None })
    } else {
        Err(ServeError::Io)
    }
}

pub fn after_load(outcome: FileRead) -> (r: Result<Response, ServeError>)
    ensures
        response_result(r) == loaded(outcome),
{
    match outcome {
        FileRead::Loaded(b) => Ok(
            Response::from_status_and_body(
                Status::Success,
                Body::new("application/octet-stream", b.as_slice()),
            ),
        ),
        FileRead::NotFound => Ok(Response::with_status(Status::NotFound)),
        FileRead::Failed => Err(ServeError::Io),
    }
}

pub fn after_store(ok: bool) -> (r: Result<Response, ServeError>)
    ensures
        response_result(r) == stored(ok),
{
    if ok {
        Ok(Response::with_status(Status::Created))
    } else {
        Err(ServeError::Io)
    }
}

proof fn lemma_occurs_byte(s: Seq<u8>, b: u8, i: int)
    ensures
        occurs_at(s, seq![b], i) <==> (0 <= i < s.len() && s[i] == b),
{
    if 0 <= i < s.len() {
        assert(s.subrange(i, i + 1) =~= seq![s[i]]);
        if s[i] != b {
            assert(s.subrange(i, i + 1)[0] != seq![b][0]);
        }
    }
}

/// The segment that starts at `from` ends at the first `/` from there on.
proof fn lemma_segment_end(p: Seq<u8>, from: int, e: int)
    requires
        0 <= from <= e <= p.len(),
        forall|i: int| from <= i < e ==> p[i] != 47,
        e == p.len() || p[e] == 47,
    ensures
        segment_end(p, from) == e,
    decreases e - from,
{
    lemma_occurs_byte(p, 47, from);
    if from < e {
        lemma_segment_end(p, from + 1, e);
    }
}

/// A path of a leading `/`, a route name, and what follows it.
pub open spec fn route_path(name: Seq<u8>, rest: Seq<u8>) -> Seq<u8> {
    slash() + name + slash() + rest
}

proof fn lemma_route_path(name: Seq<u8>, rest: Seq<u8>)
    requires
        name.len() > 0,
        forall|i: int| 0 <= i < name.len() ==> name[i] != 47,
    ensures
        route_of(route_path(name, rest)) == Some((name, rest)),
{
    let p = route_path(name, rest);
    assert(p[0] == 47);
    assert(p[1] == name[0]);
    assert(first_non_slash(p, 1) == 1);
    assert(first_non_slash(p, 0) == 1);
    let e: int = name.len() as int + 1;
    assert(p[e] == 47);
    assert forall|i: int| 1 <= i < e implies p[i] != 47 by {
        assert(p[i] == name[i - 1]);
    }
    lemma_segment_end(p, 1, e);
    assert(p.subrange(1, e) =~= name);
    assert(p.subrange(e + 1, p.len() as int) =~= rest);
}

/// `GET /echo/<s>` is answered with status 200 and the body `s` exactly,
/// which goes on the wire under a `Content-Length` of its byte length.
pub proof fn lemma_echo(r: RequestView, s: Seq<u8>)
    requires
        r.method == Method::Get,
        r.path == route_path(echo_route(), s),
    ensures
        dispatch(r) == Ok::<Dispatch, ServeError>(text_reply(s)),
        wire_of(ResponseView { status: Status::Success, body: Some(("text/plain"@, s)) })
            == protocol_prefix() + status_text(Status::Success) + crlf() + content_type_prefix()
            + encode_utf8("text/plain"@) + crlf() + content_length_prefix() + decimal(s.len())
            + crlf() + crlf() + s,
{
    lemma_route_path(echo_route(), s);
    assert(echo_route() != user_agent());
    assert(echo_route()[0] != files_route()[0]);
}

/// `/user-agent`
pub open spec fn user_agent_path() -> Seq<u8> {
    slash() + user_agent()
}

/// `GET /user-agent` is answered with status 200 and the value of the
/// `User-Agent` header as its body; without that header the request fails
/// with `MissingHeader`.
pub proof fn lemma_user_agent(r: RequestView)
    requires
        r.method == Method::Get,
        r.path == user_agent_path(),
    ensures
        r.headers.contains_key(user_agent()) ==> dispatch(r) == Ok::<Dispatch, ServeError>(
            text_reply(r.headers[user_agent()]),
        ),
        !r.headers.contains_key(user_agent()) ==> dispatch(r) == Err::<Dispatch, ServeError>(
            ServeError::MissingHeader,
        ),
{
    let p = r.path;
    assert(p[0] == 47);
    assert(first_non_slash(p, 1) == 1);
    assert(first_non_slash(p, 0) == 1);
    assert forall|i: int| 1 <= i < p.len() implies p[i] != 47 by {
        assert(p[i] == user_agent()[i - 1]);
    }
    lemma_segment_end(p, 1, p.len() as int);
    assert(p.subrange(1, p.len() as int) =~= user_agent());
    assert(user_agent() != echo_route());
}

/// A header line `<n>: <x>` whose name `n` lower-cases to `user-agent` sets
/// the header that the `user-agent` route answers with, to `x`.
pub proof fn lemma_user_agent_line(n: Seq<u8>, x: Seq<u8>)
    requires
        valid_utf8(n),
        forall|i: int| 0 <= i < n.len() ==> n[i] != 58,
        name_key(n) == user_agent(),
    ensures
        header_field(n + colon_space() + x) == Some((user_agent(), x)),
{
    lemma_header_line(n, x);
}

/// A file name as the `files` route takes it: safe, and without `/`.
pub open spec fn plain_file_name(f: Seq<u8>) -> bool {
    safe_name(f) && forall|i: int| 0 <= i < f.len() ==> f[i] != 47
}

proof fn lemma_files_path(f: Seq<u8>)
    requires
        plain_file_name(f),
    ensures
        route_of(route_path(files_route(), f)) == Some((files_route(), f)),
        first_segment(f) == f,
{
    lemma_route_path(files_route(), f);
    lemma_segment_end(f, 0, f.len() as int);
    assert(f.subrange(0, f.len() as int) =~= f);
}

/// Storing then loading: `POST /files/<f>` with a non-empty body `b` stores
/// `b` under `f`; `GET /files/<f>` loads the file `f`, and the bytes it
/// loads are the body of the response, unchanged.
pub proof fn lemma_store_then_load(post: RequestView, get: RequestView, f: Seq<u8>, b: Seq<u8>)
    requires
        plain_file_name(f),
        b.len() > 0,
        post.method == Method::Post,
        post.path == route_path(files_route(), f),
        post.content == Some(b),
        get.method == Method::Get,
        get.path == route_path(files_route(), f),
    ensures
        dispatch(post) == Ok::<Dispatch, ServeError>(Dispatch::Store(f, b)),
        dispatch(get) == Ok::<Dispatch, ServeError>(Dispatch::Load(f)),
        forall|v: Vec<u8>|
            v@ == b ==> #[trigger] loaded(FileRead::Loaded(v)) == Ok::<ResponseView, ServeError>(
                ResponseView { status: Status::Success, body: Some(("application/octet-stream"@, b)) },
            ),
{
    lemma_files_path(f);
    assert(files_route() != echo_route());
    assert(files_route() != user_agent());
}

/// `GET /files/<f>` for a file that is not there is answered with 404.
pub proof fn lemma_missing_file(get: RequestView, f: Seq<u8>)
    requires
        plain_file_name(f),
        get.method == Method::Get,
        get.path == route_path(files_route(), f),
    ensures
        dispatch(get) == Ok::<Dispatch, ServeError>(Dispatch::Load(f)),
        loaded(FileRead::NotFound) == Ok::<ResponseView, ServeError>(
            ResponseView { status: Status::NotFound, body: None },
        ),
{
    lemma_files_path(f);
    assert(files_route() != echo_route());
    assert(files_route() != user_agent());
}

/// `POST /files/<f>` without a body, or with an empty one, is answered with
/// 400 and stores nothing.
pub proof fn lemma_post_without_body(post: RequestView, f: Seq<u8>)
    requires
        post.method == Method::Post,
        post.path == route_path(files_route(), f),
        forall|i: int| 0 <= i < f.len() ==> f[i] != 47,
        post.content is None || post.content == Some(Seq::<u8>::empty()),
    ensures
        dispatch(post) == Ok::<Dispatch, ServeError>(reply(Status::BadRequest)),
{
    lemma_route_path(files_route(), f);
}

} // verus!
