//! Responses and their exact wire form.

use vstd::prelude::*;
use vstd::utf8::encode_utf8;
use crate::bytes::{decimal, decimal_bytes, push_all};

verus! {

/// The status codes this server answers with.
#[derive(Clone, Copy, Debug, PartialEq, Eq, Structural)]
pub enum Status {
    Success,
    Created,
    BadRequest,
    NotFound,
}

/// Code and reason phrase of a status, as they stand on the status line:
/// `200 OK`, `201 Created`, `400 Bad Request`, `404 Not Found`.
pub open spec fn status_text(s: Status) -> Seq<u8> {
    match s {
        Status::Success => seq![50, 48, 48, 32, 79, 75],
        Status::Created => seq![50, 48, 49, 32, 67, 114, 101, 97, 116, 101, 100],
        Status::BadRequest => seq![
            52, 48, 48, 32, 66, 97, 100, 32, 82, 101, 113, 117, 101, 115, 116,
        ],
        Status::NotFound => seq![
            52, 48, 52, 32, 78, 111, 116, 32, 70, 111, 117, 110, 100,
        ],
    }
}

/// `\r\n`
pub open spec fn crlf() -> Seq<u8> {
    seq![13, 10]
}

/// `HTTP/1.1 `
pub open spec fn protocol_prefix() -> Seq<u8> {
    seq![72, 84, 84, 80, 47, 49, 46, 49, 32]
}

/// `Content-Type: `
pub open spec fn content_type_prefix() -> Seq<u8> {
    seq![67, 111, 110, 116, 101, 110, 116, 45, 84, 121, 112, 101, 58, 32]
}

/// `Content-Length: `
pub open spec fn content_length_prefix() -> Seq<u8> {
    seq![
        67, 111, 110, 116, 101, 110, 116, 45, 76, 101, 110, 103, 116, 104, 58, 32,
    ]
}

impl Status {
    /// Code and reason phrase, e.g. `404 Not Found`.
    pub fn text(self) -> (r: Vec<u8>)
        ensures
            r@ == status_text(self),
    {
        match self {
            Status::Success => vec![50, 48, 48, 32, 79, 75],
            Status::Created => vec![50, 48, 49, 32, 67, 114, 101, 97, 116, 101, 100],
            Status::BadRequest => vec![
                52, 48, 48, 32, 66, 97, 100, 32, 82, 101, 113, 117, 101, 115, 116,
            ],
            Status::NotFound => vec![
                52, 48, 52, 32, 78, 111, 116, 32, 70, 111, 117, 110, 100,
            ],
        }
    }
}

/// A response body: its media type and its raw bytes.
#[derive(Debug)]
pub struct Body {
    pub content_type: String,
    pub content: Vec<u8>,
}

/// The entity headers, the blank line and the content of a body.
pub open spec fn body_wire(content_type: Seq<char>, content: Seq<u8>) -> Seq<u8> {
    content_type_prefix() + encode_utf8(content_type) + crlf() + content_length_prefix() + decimal(
        content.len(),
    ) + crlf() + crlf() + content
}

impl Body {
    pub fn new(content_type: &str, content: &[u8]) -> (r: Body)
        ensures
            r.content_type@ == content_type@,
            r.content@ == content@,
    {
        let mut c: Vec<u8> = Vec::new();
        push_all(&mut c, content);
        Body { content_type: content_type.to_owned(), content: c }
    }

    /// Appends the body's header lines, the blank line and the content to `out`.
    pub fn write(&self, out: &mut Vec<u8>)
        ensures
            final(out)@ == old(out)@ + body_wire(self.content_type@, self.content@),
    {
        push_all(out, content_type_prefix_bytes().as_slice());
        push_all(out, self.content_type.as_str().as_bytes());
        push_all(out, crlf_bytes().as_slice());
        push_all(out, content_length_prefix_bytes().as_slice());
        push_all(out, decimal_bytes(self.content.len()).as_slice());
        push_all(out, crlf_bytes().as_slice());
        push_all(out, crlf_bytes().as_slice());
        push_all(out, self.content.as_slice());
        assert(final(out)@ =~= old(out)@ + body_wire(self.content_type@, self.content@));
    }
}

/// A status and an optional body.
#[derive(Debug)]
pub struct Response {
    pub status: Status,
    pub body: Option<Body>,
}



/// A response as a mathematical value: the status and, if there is a body,
/// its media type and content.
pub struct ResponseView {
    pub status: Status,
    pub body: Option<(Seq<char>, Seq<u8>)>,
}

impl View for Response {
    type V = ResponseView;

    open spec fn view(&self) -> ResponseView {
        ResponseView {
            status: self.status,
            body: match self.body {
                Some(b) => Some((b.content_type@, b.content@)),
                None => None,
            },
        }
    }
}

/// The exact bytes that stand on the wire for a response.
pub open spec fn wire_of(r: ResponseView) -> Seq<u8> {
    protocol_prefix() + status_text(r.status) + crlf() + match r.body {
        Some((t, c)) => body_wire(t, c),
        None => crlf(),
    }
}

impl Response {
    pub fn with_status(status: Status) -> (r: Response)
        ensures
            r.status == status,
            r.body.is_none(),
    {
        Response { status, body: None }
    }

    pub fn from_status_and_body(status: Status, body: Body) -> (r: Response)
        ensures
            r.status == status,
            r.body == Some(body),
    {
        Response { status, body: Some(body) }
    }

    /// Appends the response, byte for byte as it goes on the wire, to `out`.
    pub fn write(&self, out: &mut Vec<u8>)
        ensures
            final(out)@ == old(out)@ + wire_of(self@),
    {
        push_all(out, protocol_prefix_bytes().as_slice());
        push_all(out, self.status.text().as_slice());
        push_all(out, crlf_bytes().as_slice());
        match &self.body {
            Some(b) => b.write(out),
            None => push_all(out, crlf_bytes().as_slice()),
        }
        assert(final(out)@ =~= old(out)@ + wire_of(self@));
    }

    /// The response as it goes on the wire.
    pub fn to_bytes(&self) -> (r: Vec<u8>)
        ensures
            r@ == wire_of(self@),
    {
        let mut out: Vec<u8> = Vec::new();
        self.write(&mut out);
        assert(out@ =~= wire_of(self@));
        out
    }
}

fn crlf_bytes() -> (r: Vec<u8>)
    ensures
        r@ == crlf(),
{
    vec![13, 10]
}

fn protocol_prefix_bytes() -> (r: Vec<u8>)
    ensures
        r@ == protocol_prefix(),
{
    vec![72, 84, 84, 80, 47, 49, 46, 49, 32]
}

fn content_type_prefix_bytes() -> (r: Vec<u8>)
    ensures
        r@ == content_type_prefix(),
{
    vec![67, 111, 110, 116, 101, 110, 116, 45, 84, 121, 112, 101, 58, 32]
}

fn content_length_prefix_bytes() -> (r: Vec<u8>)
    ensures
        r@ == content_length_prefix(),
{
    vec![
        67, 111, 110, 116, 101, 110, 116, 45, 76, 101, 110, 103, 116, 104, 58, 32,
    ]
}

/// A response without a body carries no `Content-Type` or `Content-Length`
/// line: its head is the status line and one blank line, and nothing follows.
pub proof fn lemma_bodiless_wire(r: ResponseView)
    requires
        r.body is None,
    ensures
        wire_of(r) == protocol_prefix() + status_text(r.status) + crlf() + crlf(),
{
}

} // verus!
