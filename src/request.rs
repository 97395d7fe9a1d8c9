//! Requests: the method, the path, the header map and the body, parsed from
//! the bytes read off a connection.

use vstd::prelude::*;
use vstd::utf8::{decode_utf8, encode_utf8, valid_utf8};
use crate::bytes::{
    all_digits, bounded_value, copy_range, digits_below, digits_value, find,
    first_occurrence, is_all_digits, lemma_first_occurrence, lemma_first_occurrence_at, occurs_at, push_all, same_bytes,
};

verus! {

/// The request methods this server understands.
#[derive(Clone, Copy, Debug, PartialEq, Eq, Structural)]
pub enum Method {
    Get,
    Post,
}

/// Why a buffer does not hold a request.
#[derive(Clone, Copy, Debug, PartialEq, Eq, Structural)]
pub enum ParseError {
    /// The bytes are not UTF-8.
    Encoding,
    /// The request line is missing or has fewer than three tokens.
    MalformedRequestLine,
    /// The method token is not one of `GET` and `POST`.
    UnsupportedMethod,
}

/// `GET`
pub open spec fn get_token() -> Seq<u8> {
    seq![71, 69, 84]
}

/// `POST`
pub open spec fn post_token() -> Seq<u8> {
    seq![80, 79, 83, 84]
}

pub open spec fn method_of(t: Seq<u8>) -> Option<Method> {
    if t == get_token() {
        Some(Method::Get)
    } else if t == post_token() {
        Some(Method::Post)
    } else {
        None
    }
}

/// `\r\n\r\n`, the end of the header block.
pub open spec fn separator() -> Seq<u8> {
    seq![13, 10, 13, 10]
}

/// `\n`
pub open spec fn newline() -> Seq<u8> {
    seq![10]
}

/// `: `, between a header's name and its value.
pub open spec fn colon_space() -> Seq<u8> {
    seq![58, 32]
}

/// `content-length`
pub open spec fn content_length_name() -> Seq<u8> {
    seq![99, 111, 110, 116, 101, 110, 116, 45, 108, 101, 110, 103, 116, 104]
}

/// A line without the carriage return that preceded its line feed.
pub open spec fn strip_cr(l: Seq<u8>) -> Seq<u8> {
    if l.len() > 0 && l.last() == 13 {
        l.drop_last()
    } else {
        l
    }
}

/// The lines of `s` from index `start` on. A line ends at a line feed, which
/// a carriage return may precede; the last line needs no line feed, and none
/// follows a final line feed.
pub open spec fn lines_from(s: Seq<u8>, start: int) -> Seq<Seq<u8>>
    decreases s.len() - start,
{
    if start < 0 || start >= s.len() {
        seq![]
    } else {
        match first_occurrence(s, newline(), start) {
            Some(e) => if start <= e < s.len() {
                seq![strip_cr(s.subrange(start, e))] + lines_from(s, e + 1)
            } else {
                seq![]
            },
            None => seq![s.subrange(start, s.len() as int)],
        }
    }
}

/// The byte length of the white-space character that starts at index `i`, or
/// 0. White space is that of Unicode's `White_Space` property: tab, line
/// feed, vertical tab, form feed, carriage return, space, U+0085, U+00A0,
/// U+1680, U+2000 to U+200A, U+2028, U+2029, U+202F, U+205F and U+3000, here
/// in their UTF-8 form.
pub open spec fn ws_width(s: Seq<u8>, i: int) -> int {
    if i < 0 || i >= s.len() {
        0
    } else if (9 <= s[i] <= 13) || s[i] == 32 {
        1
    } else if i + 1 < s.len() && s[i] == 0xC2 && (s[i + 1] == 0x85 || s[i + 1] == 0xA0) {
        2
    } else if i + 2 < s.len() && ((s[i] == 0xE1 && s[i + 1] == 0x9A && s[i + 2] == 0x80) || (
    s[i] == 0xE2 && s[i + 1] == 0x80 && ((0x80 <= s[i + 2] <= 0x8A) || s[i + 2] == 0xA8
        || s[i + 2] == 0xA9 || s[i + 2] == 0xAF)) || (s[i] == 0xE2 && s[i + 1] == 0x81 && s[i + 2]
        == 0x9F) || (s[i] == 0xE3 && s[i + 1] == 0x80 && s[i + 2] == 0x80)) {
        3
    } else {
        0
    }
}

/// The first index at or after `from` where white space starts; the length
/// of `s` if there is none.
pub open spec fn first_ws(s: Seq<u8>, from: int) -> int
    decreases s.len() - from,
{
    if from < 0 || from >= s.len() {
        s.len() as int
    } else if ws_width(s, from) > 0 {
        from
    } else {
        first_ws(s, from + 1)
    }
}

/// The first index at or after `from` where no white space starts, stepping
/// over whole white-space characters; the length of `s` if there is none.
pub open spec fn first_non_ws(s: Seq<u8>, from: int) -> int
    decreases s.len() - from,
{
    if from < 0 || from >= s.len() {
        s.len() as int
    } else if ws_width(s, from) > 0 {
        first_non_ws(s, from + ws_width(s, from))
    } else {
        from
    }
}

/// The request line as method, path and protocol version. A token is a
/// maximal run of bytes that starts no white space; the line needs at least
/// three. The version is all that follows the white space after the path.
pub open spec fn request_line_parts(l: Seq<u8>) -> Option<(Seq<u8>, Seq<u8>, Seq<u8>)> {
    let a0 = first_non_ws(l, 0);
    let a1 = first_ws(l, a0);
    let b0 = first_non_ws(l, a1);
    let b1 = first_ws(l, b0);
    let c0 = first_non_ws(l, b1);
    if a0 >= l.len() || b0 >= l.len() || c0 >= l.len() {
        None
    } else {
        Some((l.subrange(a0, a1), l.subrange(b0, b1), l.subrange(c0, l.len() as int)))
    }
}

/// What `str::to_lowercase` gives for a text.
pub uninterp spec fn lower_of(s: Seq<char>) -> Seq<char>;

/// The key under which a header name is kept: the name in lower case.
pub open spec fn name_key(n: Seq<u8>) -> Seq<u8> {
    encode_utf8(lower_of(decode_utf8(n)))
}

/// A header line cut at its first `: `, with the name in lower case. A line
/// whose name is not UTF-8 text has no lower case and is skipped; in a
/// request, which is UTF-8 throughout, there is none.
pub open spec fn header_field(l: Seq<u8>) -> Option<(Seq<u8>, Seq<u8>)> {
    match first_occurrence(l, colon_space(), 0) {
        Some(k) => if valid_utf8(l.subrange(0, k)) {
            Some((name_key(l.subrange(0, k)), l.subrange(k + 2, l.len() as int)))
        } else {
            None
        },
        None => None,
    }
}

/// The headers that a sequence of header lines gives; a later line wins over
/// an earlier one with the same name, and a line without `: ` is skipped.
pub open spec fn header_map(ls: Seq<Seq<u8>>) -> Map<Seq<u8>, Seq<u8>>
    decreases ls.len(),
{
    if ls.len() == 0 {
        Map::empty()
    } else {
        let m = header_map(ls.drop_last());
        match header_field(ls.last()) {
            Some((k, v)) => m.insert(k, v),
            None => m,
        }
    }
}

/// The headers of a header block: those of its lines after the first.
pub open spec fn block_headers(head: Seq<u8>) -> Map<Seq<u8>, Seq<u8>> {
    let ls = lines_from(head, 0);
    if ls.len() == 0 {
        Map::empty()
    } else {
        header_map(ls.drop_first())
    }
}

/// What comes before the first blank line; all of `s` if there is none.
pub open spec fn header_block(s: Seq<u8>) -> Seq<u8> {
    match first_occurrence(s, separator(), 0) {
        Some(p) => s.subrange(0, p),
        None => s,
    }
}

/// What comes after the first blank line; nothing if there is none.
pub open spec fn trailing(s: Seq<u8>) -> Seq<u8> {
    match first_occurrence(s, separator(), 0) {
        Some(p) => s.subrange(p + 4, s.len() as int),
        None => seq![],
    }
}

/// The body: the trailing bytes, cut to the `content-length` header where
/// that is a number below their count; none where that leaves no bytes.
pub open spec fn content_of(rest: Seq<u8>, headers: Map<Seq<u8>, Seq<u8>>) -> Option<Seq<u8>> {
    let n = if headers.contains_key(content_length_name()) {
        bounded_value(headers[content_length_name()], rest.len())
    } else {
        rest.len()
    };
    if n == 0 {
        None
    } else {
        Some(rest.subrange(0, n as int))
    }
}

/// The body length that the header block announces, if it announces one.
pub open spec fn declared_length(s: Seq<u8>) -> Option<nat> {
    let h = block_headers(header_block(s));
    if h.contains_key(content_length_name()) && all_digits(h[content_length_name()]) {
        Some(digits_value(h[content_length_name()]))
    } else {
        None
    }
}

/// The bytes hold the whole header block and as many body bytes as it
/// announces.
pub open spec fn request_complete(s: Seq<u8>) -> bool {
    first_occurrence(s, separator(), 0) is Some && match declared_length(s) {
        Some(n) => trailing(s).len() >= n,
        None => true,
    }
}

/// A request as a mathematical value.
pub struct RequestView {
    pub method: Method,
    pub path: Seq<u8>,
    pub headers: Map<Seq<u8>, Seq<u8>>,
    pub content: Option<Seq<u8>>,
}

/// The request that the bytes `s` hold, or why they hold none.
pub open spec fn parse_request(s: Seq<u8>) -> Result<RequestView, ParseError> {
    if !valid_utf8(s) {
        Err(ParseError::Encoding)
    } else {
        let lines = lines_from(header_block(s), 0);
        if lines.len() == 0 {
            Err(ParseError::MalformedRequestLine)
        } else {
            match request_line_parts(lines[0]) {
                None => Err(ParseError::MalformedRequestLine),
                Some((m, p, _version)) => match method_of(m) {
                    None => Err(ParseError::UnsupportedMethod),
                    Some(method) => {
                        let h = block_headers(header_block(s));
                        Ok(
                            RequestView {
                                method,
                                path: p,
                                headers: h,
                                content: content_of(trailing(s), h),
                            },
                        )
                    },
                },
            }
        }
    }
}

/// The map that a list of entries gives, a later entry winning.
pub open spec fn entries_map(es: Seq<(Vec<u8>, Vec<u8>)>) -> Map<Seq<u8>, Seq<u8>>
    decreases es.len(),
{
    if es.len() == 0 {
        Map::empty()
    } else {
        entries_map(es.drop_last()).insert(es.last().0@, es.last().1@)
    }
}

/// Header values by lower-case name.
#[derive(Debug)]
pub struct Headers {
    entries: Vec<(Vec<u8>, Vec<u8>)>,
}

impl View for Headers {
    type V = Map<Seq<u8>, Seq<u8>>;

    closed spec fn view(&self) -> Map<Seq<u8>, Seq<u8>> {
        entries_map(self.entries@)
    }
}

impl Headers {
    pub fn new() -> (r: Headers)
        ensures
            r@ == Map::<Seq<u8>, Seq<u8>>::empty(),
    {
        Headers { entries: Vec::new() }
    }

    /// Sets the value of `name`, replacing an earlier one.
    pub fn insert(&mut self, name: Vec<u8>, value: Vec<u8>)
        ensures
            final(self)@ == old(self)@.insert(name@, value@),
    {
        self.entries.push((name, value));
        assert(self.entries@.drop_last() =~= old(self).entries@);
    }

    /// The value of `name`, if it is set.
    pub fn get(&self, name: &[u8]) -> (r: Option<&Vec<u8>>)
        ensures
            r is Some == self@.contains_key(name@),
            r matches Some(v) ==> v@ == self@[name@],
    {
        let mut found: Option<usize> = None;
        let mut i: usize = 0;
        while i < self.entries.len()
            invariant
                i <= self.entries@.len(),
                found is None == !entries_map(self.entries@.take(i as int)).contains_key(name@),
                found matches Some(k) ==> k < i && self.entries@[k as int].1@ == entries_map(
                    self.entries@.take(i as int),
                )[name@],
            decreases self.entries@.len() - i,
        {
            assert(self.entries@.take(i + 1 as int).drop_last() =~= self.entries@.take(i as int));
            if same_bytes(self.entries[i].0.as_slice(), name) {
                found = Some(i);
            }
            i = i + 1;
        }
        assert(self.entries@.take(i as int) =~= self.entries@);
        match found {
            Some(k) => Some(&self.entries[k].1),
            None => None,
        }
    }
}

/// Relies on `std::str::from_utf8`, which fails exactly on bytes that are not
/// UTF-8 and otherwise gives the text they encode.
#[verifier::external_body]
fn utf8_text(b: &[u8]) -> (r: Option<&str>)
    ensures
        r is Some == valid_utf8(b@),
        r matches Some(t) ==> t@ == decode_utf8(b@),
{
    std::str::from_utf8(b).ok()
}

/// Relies on `str::to_lowercase`, whose result depends on the text alone.
#[verifier::external_body]
fn lowercase(t: &str) -> (r: String)
    ensures
        r@ == lower_of(t@),
{
    t.to_lowercase()
}

/// The pieces `s[r[j].0..r[j].1]` that a list of ranges gives.
pub open spec fn pieces(s: Seq<u8>, r: Seq<(usize, usize)>) -> Seq<Seq<u8>> {
    Seq::new(r.len(), |j: int| s.subrange(r[j].0 as int, r[j].1 as int))
}

/// The ranges of the lines of `s`.
fn split_lines(s: &[u8]) -> (r: Vec<(usize, usize)>)
    ensures
        pieces(s@, r@) == lines_from(s@, 0),
        forall|j: int| 0 <= j < r@.len() ==> #[trigger] r@[j].0 <= r@[j].1 <= s@.len(),
{
    let nl: Vec<u8> = vec![10];
    let mut r: Vec<(usize, usize)> = Vec::new();
    let mut start: usize = 0;
    assert(pieces(s@, r@) =~= Seq::<Seq<u8>>::empty());
    while start < s.len()
        invariant
            start <= s@.len(),
            nl@ == newline(),
            lines_from(s@, 0) == pieces(s@, r@) + lines_from(s@, start as int),
            forall|j: int| 0 <= j < r@.len() ==> #[trigger] r@[j].0 <= r@[j].1 <= s@.len(),
        decreases s@.len() - start,
    {
        let ghost old_r = r@;
        match find(s, nl.as_slice(), start) {
            Some(e) => {
                proof {
                    lemma_first_occurrence(s@, newline(), start as int);
                }
                let end: usize = if e > start && s[e - 1] == 13 {
                    e - 1
                } else {
                    e
                };
                r.push((start, end));
                proof {
                    assert(s@.subrange(start as int, end as int) == strip_cr(
                        s@.subrange(start as int, e as int),
                    )) by {
                        if e > start && s@[e - 1] == 13 {
                            assert(s@.subrange(start as int, e - 1 as int) =~= s@.subrange(
                                start as int,
                                e as int,
                            ).drop_last());
                        }
                    }
                    assert(pieces(s@, r@) =~= pieces(s@, old_r).push(
                        s@.subrange(start as int, end as int),
                    ));
                }
                start = e + 1;
            },
            None => {
                r.push((start, s.len()));
                assert(pieces(s@, r@) =~= pieces(s@, old_r).push(
                    s@.subrange(start as int, s@.len() as int),
                ));
                start = s.len();
            },
        }
    }
    assert(lines_from(s@, start as int) =~= Seq::<Seq<u8>>::empty());
    assert(pieces(s@, r@) + Seq::<Seq<u8>>::empty() =~= pieces(s@, r@));
    r
}

/// The byte length of the white-space character that starts at `i`, or 0.
fn whitespace_width(s: &[u8], i: usize) -> (r: usize)
    requires
        i < s@.len(),
    ensures
        r == ws_width(s@, i as int),
{
    let n: usize = s.len();
    let b0 = s[i];
    if (9 <= b0 && b0 <= 13) || b0 == 32 {
        return 1;
    }
    if n - i > 1 && b0 == 0xC2 && (s[i + 1] == 0x85 || s[i + 1] == 0xA0) {
        return 2;
    }
    if n - i > 2 {
        let b1 = s[i + 1];
        let b2 = s[i + 2];
        if (b0 == 0xE1 && b1 == 0x9A && b2 == 0x80) || (b0 == 0xE2 && b1 == 0x80 && ((0x80 <= b2
            && b2 <= 0x8A) || b2 == 0xA8 || b2 == 0xA9 || b2 == 0xAF)) || (b0 == 0xE2 && b1 == 0x81
            && b2 == 0x9F) || (b0 == 0xE3 && b1 == 0x80 && b2 == 0x80) {
            return 3;
        }
    }
    0
}

/// The first index at or after `from` where white space starts, or the length.
fn find_whitespace(s: &[u8], from: usize) -> (r: usize)
    ensures
        r == first_ws(s@, from as int),
{
    if from >= s.len() {
        return s.len();
    }
    let mut i: usize = from;
    while i < s.len()
        invariant
            from <= i <= s@.len(),
            first_ws(s@, from as int) == first_ws(s@, i as int),
        decreases s@.len() - i,
    {
        if whitespace_width(s, i) > 0 {
            return i;
        }
        i = i + 1;
    }
    s.len()
}

proof fn lemma_first_ws(s: Seq<u8>, from: int)
    requires
        0 <= from <= s.len(),
    ensures
        from <= first_ws(s, from) <= s.len(),
    decreases s.len() - from,
{
    if from < s.len() && ws_width(s, from) == 0 {
        lemma_first_ws(s, from + 1);
    }
}

proof fn lemma_first_non_ws(s: Seq<u8>, from: int)
    requires
        0 <= from <= s.len(),
    ensures
        from <= first_non_ws(s, from) <= s.len(),
    decreases s.len() - from,
{
    if from < s.len() && ws_width(s, from) > 0 {
        lemma_first_non_ws(s, from + ws_width(s, from));
    }
}

/// The first index at or after `from` where no white space starts.
fn find_non_whitespace(s: &[u8], from: usize) -> (r: usize)
    requires
        from <= s@.len(),
    ensures
        r == first_non_ws(s@, from as int),
{
    let mut i: usize = from;
    while i < s.len()
        invariant
            from <= i <= s@.len(),
            first_non_ws(s@, from as int) == first_non_ws(s@, i as int),
        decreases s@.len() - i,
    {
        let w = whitespace_width(s, i);
        if w == 0 {
            return i;
        }
        i = i + w;
    }
    i
}

/// White space first starts at `n` from `from` on.
pub proof fn lemma_first_ws_at(s: Seq<u8>, from: int, n: int)
    requires
        0 <= from <= n < s.len(),
        forall|k: int| from <= k < n ==> ws_width(s, k) == 0,
        ws_width(s, n) > 0,
    ensures
        first_ws(s, from) == n,
    decreases n - from,
{
    if from < n {
        lemma_first_ws_at(s, from + 1, n);
    }
}

/// The method and the path of a request line.
fn split_request_line(l: &[u8]) -> (r: Option<(Vec<u8>, Vec<u8>)>)
    ensures
        match request_line_parts(l@) {
            Some((m, p, _v)) => r matches Some((rm, rp)) && rm@ == m && rp@ == p,
            None => r is None,
        },
{
    let a0 = find_non_whitespace(l, 0);
    proof {
        lemma_first_non_ws(l@, 0);
        lemma_first_ws(l@, a0 as int);
    }
    let a1 = find_whitespace(l, a0);
    proof {
        lemma_first_non_ws(l@, a1 as int);
    }
    let b0 = find_non_whitespace(l, a1);
    proof {
        lemma_first_ws(l@, b0 as int);
    }
    let b1 = find_whitespace(l, b0);
    proof {
        lemma_first_non_ws(l@, b1 as int);
    }
    let c0 = find_non_whitespace(l, b1);
    if a0 >= l.len() || b0 >= l.len() || c0 >= l.len() {
        return None;
    }
    Some((copy_range(l, a0, a1), copy_range(l, b0, b1)))
}

/// A header line's lower-case name and its value.
fn split_header(l: &[u8]) -> (r: Option<(Vec<u8>, Vec<u8>)>)
    ensures
        match header_field(l@) {
            Some((k, v)) => r matches Some((rk, rv)) && rk@ == k && rv@ == v,
            None => r is None,
        },
{
    let cs: Vec<u8> = vec![58, 32];
    assert(cs@ == colon_space());
    match find(l, cs.as_slice(), 0) {
        Some(k) => {
            proof {
                lemma_first_occurrence(l@, colon_space(), 0);
            }
            let n: usize = l.len();
            assert(occurs_at(l@, colon_space(), k as int));
            assert(k + 2 <= n);
            let name = copy_range(l, 0, k);
            match utf8_text(name.as_slice()) {
                Some(text) => {
                    let lower = lowercase(text);
                    let mut key: Vec<u8> = Vec::new();
                    push_all(&mut key, lower.as_str().as_bytes());
                    Some((key, copy_range(l, k + 2, n)))
                },
                None => None,
            }
        },
        None => None,
    }
}

/// The headers of a header block.
pub fn headers_of(head: &[u8]) -> (r: Headers)
    ensures
        r@ == block_headers(head@),
{
    let lines = split_lines(head);
    let ghost ls = lines_from(head@, 0);
    let mut headers = Headers::new();
    if lines.len() == 0 {
        return headers;
    }
    let mut j: usize = 1;
    assert(ls.subrange(1, 1) =~= Seq::<Seq<u8>>::empty());
    while j < lines.len()
        invariant
            1 <= j <= lines@.len(),
            pieces(head@, lines@) == ls,
            forall|i: int|
                0 <= i < lines@.len() ==> #[trigger] lines@[i].0 <= lines@[i].1 <= head@.len(),
            headers@ == header_map(ls.subrange(1, j as int)),
        decreases lines@.len() - j,
    {
        assert(pieces(head@, lines@)[j as int] == ls[j as int]);
        let line = copy_range(head, lines[j].0, lines[j].1);
        assert(ls.subrange(1, j + 1 as int).drop_last() =~= ls.subrange(1, j as int));
        match split_header(line.as_slice()) {
            Some((k, v)) => headers.insert(k, v),
            None => {},
        }
        j = j + 1;
    }
    assert(ls.subrange(1, j as int) =~= ls.drop_first());
    headers
}

/// Whether `buf` holds a whole request, so that reading can stop.
pub fn is_complete(buf: &[u8]) -> (r: bool)
    ensures
        r == request_complete(buf@),
{
    let sep: Vec<u8> = vec![13, 10, 13, 10];
    assert(sep@ == separator());
    let p = match find(buf, sep.as_slice(), 0) {
        Some(p) => p,
        None => {
            return false;
        },
    };
    proof {
        lemma_first_occurrence(buf@, separator(), 0);
    }
    let n: usize = buf.len();
    assert(occurs_at(buf@, separator(), p as int));
    let t: usize = n - p - 4;
    let head = copy_range(buf, 0, p);
    let headers = headers_of(head.as_slice());
    let cl: Vec<u8> = vec![99, 111, 110, 116, 101, 110, 116, 45, 108, 101, 110, 103, 116, 104];
    assert(cl@ == content_length_name());
    match headers.get(cl.as_slice()) {
        Some(v) => {
            if is_all_digits(v.as_slice()) {
                digits_below(v.as_slice(), t + 1) <= t
            } else {
                true
            }
        },
        None => true,
    }
}

impl Method {
    /// The method that a request-line token names.
    pub fn from_token(t: &[u8]) -> (r: Option<Method>)
        ensures
            r == method_of(t@),
    {
        let get: Vec<u8> = vec![71, 69, 84];
        let post: Vec<u8> = vec![80, 79, 83, 84];
        if same_bytes(t, get.as_slice()) {
            Some(Method::Get)
        } else if same_bytes(t, post.as_slice()) {
            Some(Method::Post)
        } else {
            None
        }
    }
}

/// A parsed request.
#[derive(Debug)]
pub struct Request {
    pub method: Method,
    pub path: Vec<u8>,
    pub headers: Headers,
    pub content: Option<Vec<u8>>,
}

impl View for Request {
    type V = RequestView;

    open spec fn view(&self) -> RequestView {
        RequestView {
            method: self.method,
            path: self.path@,
            headers: self.headers@,
            content: match self.content {
                Some(c) => Some(c@),
                None => None,
            },
        }
    }
}

/// The value that a parse result stands for.
pub open spec fn parsed_view(r: Result<Request, ParseError>) -> Result<RequestView, ParseError> {
    match r {
        Ok(q) => Ok(q@),
        Err(e) => Err(e),
    }
}

impl Request {
    /// Parses the bytes read off a connection.
    pub fn read(buf: &[u8]) -> (r: Result<Request, ParseError>)
        ensures
            parsed_view(r) == parse_request(buf@),
    {
        if utf8_text(buf).is_none() {
            return Err(ParseError::Encoding);
        }
        let sep: Vec<u8> = vec![13, 10, 13, 10];
        assert(sep@ == separator());
        let found = find(buf, sep.as_slice(), 0);
        proof {
            lemma_first_occurrence(buf@, separator(), 0);
        }
        let head_end: usize = match found {
            Some(p) => p,
            None => buf.len(),
        };
        let head = copy_range(buf, 0, head_end);
        assert(head@ == header_block(buf@)) by {
            if found is None {
                assert(buf@.subrange(0, buf@.len() as int) =~= buf@);
            }
        }
        let lines = split_lines(head.as_slice());
        let ghost ls = lines_from(head@, 0);
        if lines.len() == 0 {
            return Err(ParseError::MalformedRequestLine);
        }
        assert(pieces(head@, lines@)[0] == ls[0]);
        let first = copy_range(head.as_slice(), lines[0].0, lines[0].1);
        let (m, path) = match split_request_line(first.as_slice()) {
            Some(mp) => mp,
            None => {
                return Err(ParseError::MalformedRequestLine);
            },
        };
        let method = match Method::from_token(m.as_slice()) {
            Some(x) => x,
            None => {
                return Err(ParseError::UnsupportedMethod);
            },
        };
        let headers = headers_of(head.as_slice());
        let rest = match found {
            Some(p) => {
                let n: usize = buf.len();
                assert(occurs_at(buf@, separator(), p as int));
                assert(p + 4 <= n);
                copy_range(buf, p + 4, n)
            },
            None => Vec::new(),
        };
        assert(rest@ == trailing(buf@)) by {
            if found is None {
                assert(rest@ =~= seq![]);
            }
        }
        let cl: Vec<u8> = vec![99, 111, 110, 116, 101, 110, 116, 45, 108, 101, 110, 103, 116, 104];
        let n: usize = match headers.get(cl.as_slice()) {
            Some(v) => digits_below(v.as_slice(), rest.len()),
            None => rest.len(),
        };
        let content = if n == 0 {
            None
        } else {
            Some(copy_range(rest.as_slice(), 0, n))
        };
        Ok(Request { method, path, headers, content })
    }
}

/// A header line `<name>: <value>`, whose name is UTF-8 text without `:`,
/// gives the name in lower case and the value unchanged.
pub proof fn lemma_header_line(name: Seq<u8>, value: Seq<u8>)
    requires
        valid_utf8(name),
        forall|i: int| 0 <= i < name.len() ==> name[i] != 58,
    ensures
        header_field(name + colon_space() + value) == Some((name_key(name), value)),
{
    let l = name + colon_space() + value;
    let n = name.len() as int;
    assert(l.subrange(n, n + 2) =~= colon_space());
    assert forall|i: int| 0 <= i < n implies l[i] != 58 by {
        assert(l[i] == name[i]);
    }
    lemma_first_occurrence_at(l, colon_space(), 0, n);
    assert(l.subrange(0, n) =~= name);
    assert(l.subrange(n + 2, l.len() as int) =~= value);
}

} // verus!
