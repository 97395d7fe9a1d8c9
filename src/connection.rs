//! The protocol state machine of one connection. The caller performs each
//! step it returns (a read, a file operation, a write) and reports how that
//! went; the connection decides what comes next.

use vstd::prelude::*;
use vstd::utf8::valid_utf8;
use crate::bytes::push_all;
use crate::bytes::{
    first_occurrence, lemma_first_occurrence, lemma_first_occurrence_at, lemma_first_occurrence_skip,
    lemma_no_occurrence,
};
use crate::request::{
    block_headers, content_of, first_non_ws, get_token, header_block, is_complete, lemma_first_ws_at,
    lines_from, method_of, newline, parse_request, post_token, request_complete, request_line_parts,
    separator, trailing, ws_width, Method, ParseError, Request, RequestView,
};
use crate::response::{crlf, wire_of, Response, ResponseView, Status};
use crate::router::{
    after_load, after_store, dispatch, echo_route, files_route, lemma_echo, lemma_post_without_body,
    lemma_store_then_load, lemma_user_agent, loaded, plain_file_name, response_result, route,
    route_path, stored, user_agent, user_agent_path, Action, Dispatch, FileRead, ServeError,
};

verus! {

/// A request that is not complete within this many bytes fails.
pub const MAX_REQUEST_BYTES: usize = 1048576;

/// Where a connection stands.
#[derive(Clone, Copy, Debug, PartialEq, Eq, Structural)]
pub enum Phase {
    /// Bytes of the request are being read.
    Reading,
    /// A file operation of the route is under way.
    Dispatching,
    /// The response is being written.
    Sending,
    /// The exchange is complete.
    Closed,
    /// The connection ends without a complete exchange.
    Failed,
}

/// What the caller is to do next.
#[derive(Debug)]
pub enum Step {
    ReadMore,
    /// Read this file of the serving directory.
    Load(Vec<u8>),
    /// Write a file of the serving directory: its name, then its content.
    Store(Vec<u8>, Vec<u8>),
    /// Write these bytes to the connection.
    Send(Vec<u8>),
    /// Close the connection: the exchange is complete.
    Close,
    /// Close the connection: the exchange failed, for this reason.
    Abort(ServeError),
}

/// A step as a mathematical value.
pub enum StepView {
    ReadMore,
    Load(Seq<u8>),
    Store(Seq<u8>, Seq<u8>),
    Send(Seq<u8>),
    Close,
    Abort(ServeError),
}

impl View for Step {
    type V = StepView;

    open spec fn view(&self) -> StepView {
        match self {
            Step::ReadMore => StepView::ReadMore,
            Step::Load(f) => StepView::Load(f@),
            Step::Store(f, c) => StepView::Store(f@, c@),
            Step::Send(b) => StepView::Send(b@),
            Step::Close => StepView::Close,
            Step::Abort(e) => StepView::Abort(*e),
        }
    }
}

/// Phase and step once the request's bytes are in. An unknown method is
/// answered with 404; any other parse failure, and a route that fails, end
/// the connection.
pub open spec fn begin_exchange(s: Seq<u8>) -> (Phase, StepView) {
    match parse_request(s) {
        Err(ParseError::UnsupportedMethod) => (
            Phase::Sending,
            StepView::Send(wire_of(ResponseView { status: Status::NotFound, body: None })),
        ),
        Err(e) => (Phase::Failed, StepView::Abort(ServeError::Parse(e))),
        Ok(r) => match dispatch(r) {
            Err(e) => (Phase::Failed, StepView::Abort(e)),
            Ok(Dispatch::Reply(v)) => (Phase::Sending, StepView::Send(wire_of(v))),
            Ok(Dispatch::Load(f)) => (Phase::Dispatching, StepView::Load(f)),
            Ok(Dispatch::Store(f, c)) => (Phase::Dispatching, StepView::Store(f, c)),
        },
    }
}

/// Phase and step once a file operation has given a response, or failed.
pub open spec fn answer(r: Result<ResponseView, ServeError>) -> (Phase, StepView) {
    match r {
        Ok(v) => (Phase::Sending, StepView::Send(wire_of(v))),
        Err(e) => (Phase::Failed, StepView::Abort(e)),
    }
}

/// The phase after an event that does not fit the current one: a closed
/// connection stays closed, any other fails.
pub open spec fn misplaced(p: Phase) -> Phase {
    if p == Phase::Closed {
        Phase::Closed
    } else {
        Phase::Failed
    }
}

/// The step after an event that does not fit the current phase.
pub open spec fn misplaced_step(p: Phase) -> StepView {
    if p == Phase::Closed {
        StepView::Close
    } else {
        StepView::Abort(ServeError::UnexpectedEvent)
    }
}

/// One connection: its phase and the bytes of the request read so far.
#[derive(Debug)]
pub struct Connection {
    pub phase: Phase,
    pub buf: Vec<u8>,
}

impl Connection {
    pub fn new() -> (r: Connection)
        ensures
            r.phase == Phase::Reading,
            r.buf@ == Seq::<u8>::empty(),
    {
        Connection { phase: Phase::Reading, buf: Vec::new() }
    }

    fn misplaced_event(&mut self) -> (r: Step)
        ensures
            final(self).phase == misplaced(old(self).phase),
            final(self).buf == old(self).buf,
            r@ == misplaced_step(old(self).phase),
    {
        if self.phase == Phase::Closed {
            Step::Close
        } else {
            self.phase = Phase::Failed;
            Step::Abort(ServeError::UnexpectedEvent)
        }
    }

    fn begin(&mut self) -> (r: Step)
        ensures
            (final(self).phase, r@) == begin_exchange(old(self).buf@),
            final(self).buf == old(self).buf,
    {
        match Request::read(self.buf.as_slice()) {
            Err(ParseError::UnsupportedMethod) => {
                self.phase = Phase::Sending;
                Step::Send(Response::with_status(Status::NotFound).to_bytes())
            },
            Err(e) => {
                self.phase = Phase::Failed;
                Step::Abort(ServeError::Parse(e))
            },
            Ok(req) => match route(&req) {
                Err(e) => {
                    self.phase = Phase::Failed;
                    Step::Abort(e)
                },
                Ok(Action::Respond(resp)) => {
                    self.phase = Phase::Sending;
                    Step::Send(resp.to_bytes())
                },
                Ok(Action::Load(f)) => {
                    self.phase = Phase::Dispatching;
                    Step::Load(f)
                },
                Ok(Action::Store(f, c)) => {
                    self.phase = Phase::Dispatching;
                    Step::Store(f, c)
                },
            },
        }
    }

    fn finish(&mut self, res: Result<Response, ServeError>) -> (r: Step)
        ensures
            (final(self).phase, r@) == answer(response_result(res)),
            final(self).buf == old(self).buf,
    {
        match res {
            Ok(resp) => {
                self.phase = Phase::Sending;
                Step::Send(resp.to_bytes())
            },
            Err(e) => {
                self.phase = Phase::Failed;
                Step::Abort(e)
            },
        }
    }

    /// Bytes came in. Reading goes on until the request is complete; a
    /// request that fills the buffer and is still not complete fails.
    pub fn on_received(&mut self, chunk: &[u8]) -> (r: Step)
        ensures
            old(self).phase != Phase::Reading ==> final(self).buf == old(self).buf,
            old(self).phase == Phase::Reading ==> final(self).buf@ == old(self).buf@ + chunk@,
            old(self).phase == Phase::Reading && request_complete(final(self).buf@) ==> (
            final(self).phase, r@) == begin_exchange(final(self).buf@),
            old(self).phase == Phase::Reading && !request_complete(final(self).buf@)
                && final(self).buf@.len() >= MAX_REQUEST_BYTES ==> final(self).phase
                == Phase::Failed && r@ == StepView::Abort(ServeError::TooLarge),
            old(self).phase == Phase::Reading && !request_complete(final(self).buf@)
                && final(self).buf@.len() < MAX_REQUEST_BYTES ==> final(self).phase
                == Phase::Reading && r@ == StepView::ReadMore,
            old(self).phase != Phase::Reading ==> final(self).phase == misplaced(old(self).phase)
                && r@ == misplaced_step(old(self).phase),
    {
        if self.phase != Phase::Reading {
            return self.misplaced_event();
        }
        push_all(&mut self.buf, chunk);
        if is_complete(self.buf.as_slice()) {
            self.begin()
        } else if self.buf.len() >= MAX_REQUEST_BYTES {
            self.phase = Phase::Failed;
            Step::Abort(ServeError::TooLarge)
        } else {
            Step::ReadMore
        }
    }

    /// The peer sent all it will send: the request is what came so far.
    pub fn on_end_of_input(&mut self) -> (r: Step)
        ensures
            final(self).buf == old(self).buf,
            old(self).phase == Phase::Reading ==> (final(self).phase, r@) == begin_exchange(
                old(self).buf@,
            ),
            old(self).phase != Phase::Reading ==> final(self).phase == misplaced(old(self).phase)
                && r@ == misplaced_step(old(self).phase),
    {
        if self.phase != Phase::Reading {
            return self.misplaced_event();
        }
        self.begin()
    }

    /// The file that a `Load` step named was read, or was not.
    pub fn on_loaded(&mut self, outcome: FileRead) -> (r: Step)
        ensures
            final(self).buf == old(self).buf,
            old(self).phase == Phase::Dispatching ==> (final(self).phase, r@) == answer(
                loaded(outcome),
            ),
            old(self).phase != Phase::Dispatching ==> final(self).phase == misplaced(
                old(self).phase,
            ) && r@ == misplaced_step(old(self).phase),
    {
        if self.phase != Phase::Dispatching {
            return self.misplaced_event();
        }
        self.finish(after_load(outcome))
    }

    /// The file that a `Store` step named was written (`ok`), or was not.
    pub fn on_stored(&mut self, ok: bool) -> (r: Step)
        ensures
            final(self).buf == old(self).buf,
            old(self).phase == Phase::Dispatching ==> (final(self).phase, r@) == answer(
                stored(ok),
            ),
            old(self).phase != Phase::Dispatching ==> final(self).phase == misplaced(
                old(self).phase,
            ) && r@ == misplaced_step(old(self).phase),
    {
        if self.phase != Phase::Dispatching {
            return self.misplaced_event();
        }
        self.finish(after_store(ok))
    }

    /// The bytes of a `Send` step were all written: the exchange is complete.
    pub fn on_sent(&mut self) -> (r: Step)
        ensures
            final(self).buf == old(self).buf,
            old(self).phase == Phase::Sending ==> final(self).phase == Phase::Closed && r@
                == StepView::Close,
            old(self).phase != Phase::Sending ==> final(self).phase == misplaced(old(self).phase)
                && r@ == misplaced_step(old(self).phase),
    {
        if self.phase != Phase::Sending {
            return self.misplaced_event();
        }
        self.phase = Phase::Closed;
        Step::Close
    }

    /// Reading or writing the connection failed. A connection that is
    /// already closed stays so.
    pub fn on_transport_failure(&mut self) -> (r: Step)
        ensures
            final(self).buf == old(self).buf,
            final(self).phase == misplaced(old(self).phase),
            old(self).phase == Phase::Closed ==> r@ == StepView::Close,
            old(self).phase != Phase::Closed ==> r@ == StepView::Abort(ServeError::Transport),
    {
        if self.phase == Phase::Closed {
            Step::Close
        } else {
            self.phase = Phase::Failed;
            Step::Abort(ServeError::Transport)
        }
    }
}

/// The lines of the header block of `s`.
pub open spec fn head_lines(s: Seq<u8>) -> Seq<Seq<u8>> {
    lines_from(header_block(s), 0)
}

/// A request whose request line is whole but whose method is not one this
/// server knows is answered with 404, not dropped.
pub proof fn lemma_unknown_method(s: Seq<u8>)
    requires
        valid_utf8(s),
        head_lines(s).len() > 0,
        request_line_parts(head_lines(s)[0]) matches Some((m, _p, _v)) && method_of(m) is None,
    ensures
        begin_exchange(s) == (
            Phase::Sending,
            StepView::Send(wire_of(ResponseView { status: Status::NotFound, body: None })),
        ),
{
}

/// A request line with fewer than three tokens, or none at all, ends the
/// connection without a response.
pub proof fn lemma_malformed_request_line(s: Seq<u8>)
    requires
        valid_utf8(s),
        head_lines(s).len() == 0 || request_line_parts(head_lines(s)[0]) is None,
    ensures
        begin_exchange(s) == (
            Phase::Failed,
            StepView::Abort(ServeError::Parse(ParseError::MalformedRequestLine)),
        ),
{
}

/// ` HTTP/1.1`
pub open spec fn version_suffix() -> Seq<u8> {
    seq![32, 72, 84, 84, 80, 47, 49, 46, 49]
}

/// `s` holds no white-space character.
pub open spec fn no_white_space(s: Seq<u8>) -> bool {
    forall|k: int| 0 <= k < s.len() ==> #[trigger] ws_width(s, k) == 0
}

/// `<m> <p> HTTP/1.1`, a line end, and whatever header lines and body follow.
pub open spec fn request_bytes(m: Seq<u8>, p: Seq<u8>, t: Seq<u8>) -> Seq<u8> {
    m + seq![32u8] + p + version_suffix() + crlf() + t
}

/// The request that `request_bytes(m, p, t)` holds.
pub open spec fn request_of_bytes(m: Seq<u8>, p: Seq<u8>, t: Seq<u8>) -> RequestView {
    let b = request_bytes(m, p, t);
    let h = block_headers(header_block(b));
    RequestView { method: method_of(m)->0, path: p, headers: h, content: content_of(trailing(b), h) }
}

/// A request line of a known method, a path without white space and the
/// version parses, whatever header lines and body follow, to that method
/// and that path, with the headers and the body that follow.
pub proof fn lemma_request_bytes(m: Seq<u8>, p: Seq<u8>, t: Seq<u8>)
    requires
        method_of(m) is Some,
        p.len() > 0,
        no_white_space(p),
        valid_utf8(request_bytes(m, p, t)),
    ensures
        parse_request(request_bytes(m, p, t)) == Ok::<RequestView, ParseError>(
            request_of_bytes(m, p, t),
        ),
{
    let line = m + seq![32u8] + p + version_suffix();
    let b = request_bytes(m, p, t);
    assert(b =~= line + crlf() + t);
    let ml: int = m.len() as int;
    let ll: int = line.len() as int;
    let q: int = ml + 1 + p.len() as int;
    assert(m == get_token() || m == post_token());
    assert forall|k: int| 0 <= k < ml implies 65 <= #[trigger] line[k] <= 90 by {}
    assert forall|k: int| ml + 1 <= k < q implies ws_width(line, k) == 0 by {
        let j = k - ml - 1;
        assert(line[k] == p[j]);
        assert(ws_width(p, j) == 0);
        if k + 1 < ll {
            assert(line[k + 1] == if j + 1 < p.len() { p[j + 1] } else { 32u8 });
        }
        if k + 2 < ll {
            assert(line[k + 2] == if j + 2 < p.len() { p[j + 2] } else if j + 2 == p.len() {
                32u8
            } else {
                72u8
            });
        }
    }
    assert forall|k: int| 0 <= k < ll implies line[k] != 13 && line[k] != 10 by {
        if ml + 1 <= k < q {
            assert(ws_width(line, k) == 0);
        }
    }
    // the header block starts with the request line and its line end
    assert forall|i: int| 0 <= i < ll implies b[i] != separator()[0] by {
        assert(b[i] == line[i]);
    }
    lemma_first_occurrence_skip(b, separator(), 0, ll);
    lemma_first_occurrence(b, separator(), ll);
    assert(b[ll] == 13 && b[ll + 1] == 10);
    if first_occurrence(b, separator(), ll) == Some(ll + 1) {
        assert(b.subrange(ll + 1, ll + 5)[0] == separator()[0]);
    }
    let hb = header_block(b);
    assert(hb.subrange(0, ll) =~= line);
    if hb.len() == ll {
        assert(hb =~= line);
        lemma_no_occurrence(line, newline(), 0);
        assert(line.subrange(0, ll) =~= line);
    } else {
        assert(hb.len() >= ll + 2);
        assert(hb[ll] == 13 && hb[ll + 1] == 10);
        assert(hb.subrange(ll + 1, ll + 2) =~= newline());
        assert forall|i: int| 0 <= i < ll + 1 implies hb[i] != newline()[0] by {
            if i < ll {
                assert(hb[i] == line[i]);
            }
        }
        lemma_first_occurrence_at(hb, newline(), 0, ll + 1);
        assert(hb.subrange(0, ll + 1).drop_last() =~= line);
    }
    assert(lines_from(hb, 0)[0] == line);
    // the request line splits into the method, the path and the version
    assert forall|k: int| 0 <= k < ml implies ws_width(line, k) == 0 by {
        assert(65 <= line[k] <= 90);
    }
    lemma_first_ws_at(line, 0, ml);
    assert(line[q] == 32);
    lemma_first_ws_at(line, ml + 1, q);
    assert(ws_width(line, 0) == 0);
    assert(first_non_ws(line, 0) == 0);
    assert(ws_width(line, ml + 1) == 0);
    assert(first_non_ws(line, ml + 1) == ml + 1);
    assert(first_non_ws(line, ml) == ml + 1);
    assert(line[q + 1] == 72);
    assert(first_non_ws(line, q + 1) == q + 1);
    assert(first_non_ws(line, q) == q + 1);
    assert(line.subrange(0, ml) =~= m);
    assert(line.subrange(ml + 1, q) =~= p);
}

/// The bytes of a request `GET /echo/<s>`, whatever header lines and body
/// follow its request line, are answered with status 200 and the body `s`
/// exactly, under a `Content-Length` of its byte length.
pub proof fn lemma_echo_bytes(s: Seq<u8>, t: Seq<u8>)
    requires
        no_white_space(s),
        valid_utf8(request_bytes(get_token(), route_path(echo_route(), s), t)),
    ensures
        begin_exchange(request_bytes(get_token(), route_path(echo_route(), s), t)) == (
            Phase::Sending,
            StepView::Send(
                wire_of(ResponseView { status: Status::Success, body: Some(("text/plain"@, s)) }),
            ),
        ),
{
    let p = route_path(echo_route(), s);
    assert forall|k: int| 0 <= k < p.len() implies #[trigger] ws_width(p, k) == 0 by {
        if k >= 6 {
            let j = k - 6;
            assert(p[k] == s[j]);
            assert(ws_width(s, j) == 0);
            if k + 1 < p.len() {
                assert(p[k + 1] == s[j + 1]);
            }
            if k + 2 < p.len() {
                assert(p[k + 2] == s[j + 2]);
            }
        }
    }
    lemma_request_bytes(get_token(), p, t);
    lemma_echo(request_of_bytes(get_token(), p, t), s);
}

/// Bytes in `!`..`~` start no white space.
proof fn lemma_visible_no_ws(p: Seq<u8>)
    requires
        forall|i: int| 0 <= i < p.len() ==> 33 <= #[trigger] p[i] <= 126,
    ensures
        no_white_space(p),
{
    assert forall|k: int| 0 <= k < p.len() implies #[trigger] ws_width(p, k) == 0 by {
        assert(33 <= p[k] <= 126);
    }
}

/// A route path keeps the route name's visible bytes and a rest without
/// white space free of white space.
proof fn lemma_route_path_no_ws(name: Seq<u8>, rest: Seq<u8>)
    requires
        forall|i: int| 0 <= i < name.len() ==> 33 <= #[trigger] name[i] <= 126,
        no_white_space(rest),
    ensures
        no_white_space(route_path(name, rest)),
{
    let p = route_path(name, rest);
    let n: int = name.len() as int + 2;
    assert forall|k: int| 0 <= k < p.len() implies #[trigger] ws_width(p, k) == 0 by {
        if k >= n {
            let j = k - n;
            assert(p[k] == rest[j]);
            assert(ws_width(rest, j) == 0);
            if k + 1 < p.len() {
                assert(p[k + 1] == rest[j + 1]);
            }
            if k + 2 < p.len() {
                assert(p[k + 2] == rest[j + 2]);
            }
        } else if 1 <= k < n - 1 {
            assert(p[k] == name[k - 1]);
        }
    }
}

proof fn lemma_files_visible()
    ensures
        forall|i: int| 0 <= i < files_route().len() ==> 33 <= #[trigger] files_route()[i] <= 126,
{
    assert forall|i: int| 0 <= i < files_route().len() implies 33 <= #[trigger] files_route()[i]
        <= 126 by {
        if i == 0 {
        } else if i == 1 {
        } else if i == 2 {
        } else if i == 3 {
        } else {
        }
    }
}

/// The bytes of `GET /user-agent`, whatever header lines follow, are
/// answered with status 200 and the value of their `user-agent` header as
/// the body; without that header the connection fails with
/// `MissingHeader` and sends nothing.
pub proof fn lemma_user_agent_bytes(t: Seq<u8>)
    requires
        valid_utf8(request_bytes(get_token(), user_agent_path(), t)),
    ensures
        ({
            let h = request_of_bytes(get_token(), user_agent_path(), t).headers;
            &&& h.contains_key(user_agent()) ==> begin_exchange(
                request_bytes(get_token(), user_agent_path(), t),
            ) == (
                Phase::Sending,
                StepView::Send(
                    wire_of(
                        ResponseView {
                            status: Status::Success,
                            body: Some(("text/plain"@, h[user_agent()])),
                        },
                    ),
                ),
            )
            &&& !h.contains_key(user_agent()) ==> begin_exchange(
                request_bytes(get_token(), user_agent_path(), t),
            ) == (Phase::Failed, StepView::Abort(ServeError::MissingHeader))
        }),
{
    let p = user_agent_path();
    assert forall|i: int| 0 <= i < p.len() implies 33 <= #[trigger] p[i] <= 126 by {
        if i == 0 {
        } else if i == 1 {
        } else if i == 2 {
        } else if i == 3 {
        } else if i == 4 {
        } else if i == 5 {
        } else if i == 6 {
        } else if i == 7 {
        } else if i == 8 {
        } else if i == 9 {
        } else {
        }
    }
    lemma_visible_no_ws(p);
    lemma_request_bytes(get_token(), p, t);
    lemma_user_agent(request_of_bytes(get_token(), p, t));
}

/// Storing then loading, from the bytes of the two requests: `POST
/// /files/<f>` whose body is `c` stores `c` under `f`; `GET /files/<f>`
/// loads `f`, and the bytes loaded are sent back unchanged; a file that is
/// not there is answered with 404.
pub proof fn lemma_store_then_load_bytes(f: Seq<u8>, t1: Seq<u8>, t2: Seq<u8>, c: Seq<u8>)
    requires
        plain_file_name(f),
        no_white_space(f),
        valid_utf8(request_bytes(post_token(), route_path(files_route(), f), t1)),
        valid_utf8(request_bytes(get_token(), route_path(files_route(), f), t2)),
        request_of_bytes(post_token(), route_path(files_route(), f), t1).content == Some(c),
        c.len() > 0,
    ensures
        begin_exchange(request_bytes(post_token(), route_path(files_route(), f), t1)) == (
            Phase::Dispatching,
            StepView::Store(f, c),
        ),
        begin_exchange(request_bytes(get_token(), route_path(files_route(), f), t2)) == (
            Phase::Dispatching,
            StepView::Load(f),
        ),
        forall|v: Vec<u8>|
            v@ == c ==> #[trigger] answer(loaded(FileRead::Loaded(v))) == (
                Phase::Sending,
                StepView::Send(
                    wire_of(
                        ResponseView {
                            status: Status::Success,
                            body: Some(("application/octet-stream"@, c)),
                        },
                    ),
                ),
            ),
        answer(loaded(FileRead::NotFound)) == (
            Phase::Sending,
            StepView::Send(wire_of(ResponseView { status: Status::NotFound, body: None })),
        ),
{
    let p = route_path(files_route(), f);
    lemma_files_visible();
    lemma_route_path_no_ws(files_route(), f);
    lemma_request_bytes(post_token(), p, t1);
    lemma_request_bytes(get_token(), p, t2);
    lemma_store_then_load(
        request_of_bytes(post_token(), p, t1),
        request_of_bytes(get_token(), p, t2),
        f,
        c,
    );
}

/// The bytes of `POST /files/<f>` with no body after the blank line are
/// answered with 400, and no file is stored.
pub proof fn lemma_post_without_body_bytes(f: Seq<u8>, t: Seq<u8>)
    requires
        no_white_space(f),
        forall|i: int| 0 <= i < f.len() ==> f[i] != 47,
        valid_utf8(request_bytes(post_token(), route_path(files_route(), f), t)),
        request_of_bytes(post_token(), route_path(files_route(), f), t).content is None,
    ensures
        begin_exchange(request_bytes(post_token(), route_path(files_route(), f), t)) == (
            Phase::Sending,
            StepView::Send(wire_of(ResponseView { status: Status::BadRequest, body: None })),
        ),
{
    let p = route_path(files_route(), f);
    lemma_files_visible();
    lemma_route_path_no_ws(files_route(), f);
    lemma_request_bytes(post_token(), p, t);
    lemma_post_without_body(request_of_bytes(post_token(), p, t), f);
}

} // verus!
