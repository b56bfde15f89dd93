//! HTTP: serves the embedded client and upgrades to a WebSocket carrying the
//! RFB stream.

use include_dir::Dir;
use vstd::prelude::*;
use vstd::utf8::encode_utf8;

use crate::bytes::push_all;
use crate::text::{
    after, after_word, all_white, bare, before, chars_of, decimal, eq_ignore_ascii_case, find_char,
    first_word, is_white, lemma_ascii_white, lemma_case_does_not_count, lemma_end_is_trimmed,
    lemma_ends_are_trimmed, lemma_first_word_is_taken, lemma_next_char, lemma_text_is_cut,
    next_char, pieces, push_decimal, push_text, same_folded, same_letter, split, split_word,
    string_of, texts, trim, trim_end, trimmed, trimmed_end,
};
use crate::ws::{accept_key, base64_of, sha1_of};

verus! {

pub const MAX_HEADER_BYTES: usize = 16384;

/// A request's first line and headers.
pub struct Request {
    pub method: String,
    pub path: String,
    pub headers: Vec<(String, String)>,
}

/// A request as sequences of characters.
#[verifier::ext_equal]
pub struct RequestView {
    pub method: Seq<char>,
    pub path: Seq<char>,
    pub headers: Seq<(Seq<char>, Seq<char>)>,
}

impl View for Request {
    type V = RequestView;

    open spec fn view(&self) -> RequestView {
        RequestView {
            method: self.method@,
            path: self.path@,
            headers: pairs_view(self.headers@),
        }
    }
}

/// Names and values as sequences of characters.
pub open spec fn pairs_view(headers: Seq<(String, String)>) -> Seq<(Seq<char>, Seq<char>)> {
    headers.map_values(|h: (String, String)| (h.0@, h.1@))
}

/// Why a request is not answered.
#[derive(Clone, Copy, Debug, PartialEq, Eq, Structural)]
pub enum RequestError {
    MalformedRequestLine,
    HeadersTooLong,
}

/// What the lines received so far come to.
pub enum RequestRead {
    /// The headers go on.
    NeedLine,
    Done(Request),
    Refused(RequestError),
}

/// What lines come to, the request as a view.
pub enum RequestReadView {
    NeedLine,
    Done(RequestView),
    Refused(RequestError),
}

impl View for RequestRead {
    type V = RequestReadView;

    open spec fn view(&self) -> RequestReadView {
        match *self {
            RequestRead::NeedLine => RequestReadView::NeedLine,
            RequestRead::Done(r) => RequestReadView::Done(r@),
            RequestRead::Refused(e) => RequestReadView::Refused(e),
        }
    }
}

/// Size of a text on the wire.
pub open spec fn wire_len(s: Seq<char>) -> int {
    encode_utf8(s).len() as int
}

/// Headers with a line taken in: a name and a value around the first colon; a
/// line without one is passed over.
pub open spec fn with_line(
    headers: Seq<(Seq<char>, Seq<char>)>,
    line: Seq<char>,
) -> Seq<(Seq<char>, Seq<char>)> {
    if line.contains(':') {
        headers.push((trimmed(before(line, ':')), trimmed(after(line, ':'))))
    } else {
        headers
    }
}

/// How lines from `i` on go on with a request of which `total` bytes and some
/// headers have been read. An empty text stands for the end of the connection.
pub open spec fn read_headers(
    lines: Seq<Seq<char>>,
    i: int,
    total: int,
    r: RequestView,
) -> RequestReadView
    decreases lines.len() - i,
{
    if i >= lines.len() {
        RequestReadView::NeedLine
    } else {
        let n = wire_len(lines[i]);
        let line = trimmed_end(lines[i]);
        if n == 0 || total + n > MAX_HEADER_BYTES {
            RequestReadView::Refused(RequestError::HeadersTooLong)
        } else if line.len() == 0 {
            RequestReadView::Done(r)
        } else {
            read_headers(
                lines,
                i + 1,
                total + n,
                RequestView { headers: with_line(r.headers, line), ..r },
            )
        }
    }
}

/// How HTTP reads the lines of a request.
pub open spec fn request_of(lines: Seq<Seq<char>>) -> RequestReadView {
    if lines.len() == 0 {
        RequestReadView::NeedLine
    } else {
        let line = trimmed_end(lines[0]);
        let r = RequestView {
            method: first_word(line),
            path: first_word(after_word(line)),
            headers: seq![],
        };
        if r.method.len() == 0 || r.path.len() == 0 {
            RequestReadView::Refused(RequestError::MalformedRequestLine)
        } else {
            read_headers(lines, 1, wire_len(lines[0]), r)
        }
    }
}

/// Lines as sequences of characters.
pub open spec fn lines_view(lines: Seq<String>) -> Seq<Seq<char>> {
    lines.map_values(|l: String| l@)
}

/// Take a header line in.
fn push_header(headers: &mut Vec<(String, String)>, line: &[char])
    ensures
        pairs_view(final(headers)@) == with_line(
            pairs_view(old(headers)@),
            line@,
        ),
{
    let n: usize = line.len();
    let at: usize = find_char(line, ':');
    let ghost was = pairs_view(headers@);
    if at < n {
        assert(line@.subrange(0, at as int) =~= before(line@, ':'));
        assert(line@.subrange(at + 1, n as int) =~= after(line@, ':'));
        let name: String = string_of(trim(&line[0..at]));
        let value: String = string_of(trim(&line[at + 1..n]));
        headers.push((name, value));
        assert(pairs_view(headers@) =~= was.push(
            (name@, value@),
        ));
    }
}

/// Read a request from the lines received so far, each with its terminator; an
/// empty one says that the connection has ended.
pub fn read_request(lines: &[String]) -> (r: RequestRead)
    ensures
        r@ == request_of(lines_view(lines@)),
{
    let ghost all = lines_view(lines@);
    let n: usize = lines.len();
    if n == 0 {
        return RequestRead::NeedLine;
    }
    let first: Vec<char> = chars_of(lines[0].as_str());
    let line: &[char] = trim_end(first.as_slice());
    let (method, rest) = split_word(line);
    let (path, _) = split_word(rest);
    if method.len() == 0 || path.len() == 0 {
        return RequestRead::Refused(RequestError::MalformedRequestLine);
    }
    let method: String = string_of(method);
    let path: String = string_of(path);
    let mut headers: Vec<(String, String)> = Vec::new();
    let mut total: usize = lines[0].as_str().as_bytes().len();
    let mut i: usize = 1;
    assert(all[0] == lines@[0]@);
    assert(total == wire_len(all[0]));
    assert(pairs_view(headers@) =~= seq![]);
    while i < n
        invariant
            n == lines@.len(),
            1 <= i <= n,
            all == lines_view(lines@),
            total <= MAX_HEADER_BYTES || i == 1,
            request_of(all) == read_headers(
                all,
                i as int,
                total as int,
                RequestView {
                    method: method@,
                    path: path@,
                    headers: pairs_view(headers@),
                },
            ),
        decreases n - i,
    {
        assert(all[i as int] == lines@[i as int]@);
        let size: usize = lines[i].as_str().as_bytes().len();
        assert(size == wire_len(all[i as int]));
        if size == 0 || total > MAX_HEADER_BYTES || size > MAX_HEADER_BYTES - total {
            return RequestRead::Refused(RequestError::HeadersTooLong);
        }
        let text: Vec<char> = chars_of(lines[i].as_str());
        let line: &[char] = trim_end(text.as_slice());
        if line.len() == 0 {
            return RequestRead::Done(Request { method, path, headers });
        }
        push_header(&mut headers, line);
        total = total + size;
        i = i + 1;
    }
    RequestRead::NeedLine
}

/// The value of the first header of a name, whatever its case.
pub open spec fn header_of(
    headers: Seq<(Seq<char>, Seq<char>)>,
    name: Seq<char>,
) -> Option<Seq<char>>
    decreases headers.len(),
{
    if headers.len() == 0 {
        None
    } else if same_folded(headers[0].0, name) {
        Some(headers[0].1)
    } else {
        header_of(headers.skip(1), name)
    }
}

/// Text that may be there.
pub open spec fn str_view(s: Option<&str>) -> Option<Seq<char>> {
    match s {
        Some(t) => Some(t@),
        None => None,
    }
}

impl Request {
    pub fn header(&self, name: &str) -> (v: Option<&str>)
        ensures
            str_view(v) == header_of(self@.headers, name@),
    {
        let wanted: Vec<char> = chars_of(name);
        let ghost all = self@.headers;
        assert(all.skip(0) =~= all);
        for i in 0..self.headers.len()
            invariant
                wanted@ == name@,
                all == self@.headers,
                header_of(all, name@) == header_of(all.skip(i as int), name@),
        {
            let key: Vec<char> = chars_of(self.headers[i].0.as_str());
            assert(all.skip(i as int)[0] == (self.headers@[i as int].0@, self.headers@[i as int].1@));
            if eq_ignore_ascii_case(key.as_slice(), wanted.as_slice()) {
                return Some(self.headers[i].1.as_str());
            }
            assert(all.skip(i as int).skip(1) =~= all.skip(i + 1));
        }
        None
    }
}

/// A `host:port` pair without the port; IPv6 literals stay intact.
pub open spec fn host_part(s: Seq<char>) -> Seq<char> {
    if s.len() > 0 && s[0] == '[' {
        if s.contains(']') {
            s.take(next_char(s, ']', 0) + 1)
        } else {
            s
        }
    } else {
        before(s, ':')
    }
}

fn host_len(s: &[char]) -> (n: usize)
    ensures
        n <= s@.len(),
        s@.take(n as int) == host_part(s@),
{
    let n: usize = s.len();
    if n > 0 && s[0] == '[' {
        let end: usize = find_char(s, ']');
        if end < n {
            return end + 1;
        }
        assert(s@.take(n as int) =~= s@);
        return n;
    }
    find_char(s, ':')
}

/// Strip the port from a `host:port` pair, leaving IPv6 literals intact.
pub fn host_of(value: &str) -> (h: &str)
    ensures
        h@ == host_part(value@),
{
    let chars: Vec<char> = chars_of(value);
    let n: usize = host_len(chars.as_slice());
    assert(value@.subrange(0, n as int) =~= value@.take(n as int));
    value.substring_char(0, n)
}

/// Whether "://" stands at a position.
pub open spec fn scheme_ends_at(s: Seq<char>, i: int) -> bool {
    0 <= i && i + 3 <= s.len() && s[i] == ':' && s[i + 1] == '/' && s[i + 2] == '/'
}

/// An origin without its scheme: what follows the first "://", or all of it.
pub open spec fn without_scheme(s: Seq<char>, i: int) -> Seq<char>
    decreases s.len() - i,
{
    if i + 3 > s.len() {
        s
    } else if scheme_ends_at(s, i) {
        s.skip(i + 3)
    } else {
        without_scheme(s, i + 1)
    }
}

fn skip_scheme(s: &[char]) -> (r: &[char])
    ensures
        r@ == without_scheme(s@, 0),
{
    let n: usize = s.len();
    let mut i: usize = 0;
    while i < n && n - i >= 3
        invariant
            n == s@.len(),
            i <= n,
            without_scheme(s@, 0) == without_scheme(s@, i as int),
        decreases n - i,
    {
        if s[i] == ':' && s[i + 1] == '/' && s[i + 2] == '/' {
            assert(s@.subrange(i + 3, n as int) =~= s@.skip(i + 3));
            return &s[i + 3..n];
        }
        i = i + 1;
    }
    s
}

/// Whether one of a list of hosts, separated by commas, is `host`. A proxy
/// chain can leave a list there.
pub open spec fn lists_host(value: Option<Seq<char>>, host: Seq<char>) -> bool {
    value is Some && hosts_in(value->0, host)
}

/// Whether a host is in a list.
pub open spec fn hosts_in(v: Seq<char>, host: Seq<char>) -> bool {
    exists|k: int| 0 <= k < pieces(v, ',').len() && #[trigger] listed_host(v, k) == host
}

/// The host at a place of a list.
pub open spec fn listed_host(v: Seq<char>, k: int) -> Seq<char> {
    host_part(trimmed(pieces(v, ',')[k]))
}

/// Whether an upgrade with an origin is let through: where the browser's
/// `Origin` names a host that is allowed, or the one it was sent to.
pub open spec fn origin_is_allowed(
    headers: Seq<(Seq<char>, Seq<char>)>,
    allowed: Seq<Seq<char>>,
) -> bool {
    match header_of(headers, "origin"@) {
        // Native clients and curl send no Origin.
        None => true,
        Some(origin) => {
            let host = host_part(without_scheme(origin, 0));
            ||| exists|i: int| 0 <= i < allowed.len() && host_part(#[trigger] allowed[i]) == host
            ||| lists_host(header_of(headers, "host"@), host)
            ||| lists_host(header_of(headers, "x-forwarded-host"@), host)
        },
    }
}

fn same_host(s: &[char], host: &[char]) -> (b: bool)
    ensures
        b == (host_part(s@) == host@),
{
    let n: usize = host_len(s);
    assert(s@.subrange(0, n as int) =~= s@.take(n as int));
    crate::text::eq_chars(&s[0..n], host)
}

fn value_lists_host(value: Option<&str>, host: &[char]) -> (b: bool)
    ensures
        b == lists_host(str_view(value), host@),
{
    match value {
        None => false,
        Some(v) => {
            let chars: Vec<char> = chars_of(v);
            let list: Vec<Vec<char>> = split(chars.as_slice(), ',');
            for k in 0..list.len()
                invariant
                    texts(list@) == pieces(v@, ','),
                    str_view(value) == Some(v@),
                    forall|j: int| 0 <= j < k ==> #[trigger] listed_host(v@, j) != host@,
            {
                assert(list@[k as int]@ == texts(list@)[k as int]);
                if same_host(trim(list[k].as_slice()), host) {
                    assert(listed_host(v@, k as int) == host@);
                    return true;
                }
            }
            assert(list@.len() == texts(list@).len());
            false
        },
    }
}

/// Reject cross-origin upgrades: without this, any web page the user visits
/// could open a socket to a passwordless server on their own machine.
///
/// Behind a reverse proxy the browser's `Origin` names the public host while
/// `Host` may name the backend, so `X-Forwarded-Host` counts too. A browser
/// cannot set that header on a WebSocket handshake, only a proxy can, so
/// honouring it does not weaken the check against drive-by pages.
pub fn origin_allowed(req: &Request, allowed: &[String]) -> (b: bool)
    ensures
        b == origin_is_allowed(req@.headers, lines_view(allowed@)),
{
    let origin: Vec<char> = match req.header("origin") {
        None => {
            return true;
        },
        Some(o) => chars_of(o),
    };
    let bare: &[char] = skip_scheme(origin.as_slice());
    let n: usize = host_len(bare);
    assert(bare@.subrange(0, n as int) =~= bare@.take(n as int));
    let host: &[char] = &bare[0..n];
    for i in 0..allowed.len()
        invariant
            header_of(req@.headers, "origin"@) == Some(origin@),
            host@ == host_part(without_scheme(origin@, 0)),
            forall|j: int|
                0 <= j < i ==> host_part(#[trigger] lines_view(allowed@)[j]) != host@,
    {
        let a: Vec<char> = chars_of(allowed[i].as_str());
        assert(a@ == lines_view(allowed@)[i as int]);
        if same_host(a.as_slice(), host) {
            return true;
        }
    }
    value_lists_host(req.header("host"), host) || value_lists_host(
        req.header("x-forwarded-host"),
        host,
    )
}

/// What is sent over HTTP: a status, and a body of some type.
pub struct Response {
    pub status: u16,
    pub content_type: String,
    pub body: Vec<u8>,
}

/// A response as sequences.
#[verifier::ext_equal]
pub struct ResponseView {
    pub status: u16,
    pub content_type: Seq<char>,
    pub body: Seq<u8>,
}

impl View for Response {
    type V = ResponseView;

    open spec fn view(&self) -> ResponseView {
        ResponseView {
            status: self.status,
            content_type: self.content_type@,
            body: self.body@,
        }
    }
}

/// A response that is a line of text.
pub open spec fn plain(status: u16, body: Seq<char>) -> ResponseView {
    ResponseView { status, content_type: "text/plain"@, body: encode_utf8(body) }
}

fn plain_response(status: u16, body: &str) -> (r: Response)
    ensures
        r@ == plain(status, body@),
{
    let mut bytes: Vec<u8> = Vec::new();
    push_all(&mut bytes, body.as_bytes());
    assert(bytes@ =~= encode_utf8(body@));
    Response { status, content_type: "text/plain".to_owned(), body: bytes }
}

/// The words for a status.
pub open spec fn reason_for(status: u16) -> Seq<char> {
    if status == 200 {
        "OK"@
    } else if status == 400 {
        "Bad Request"@
    } else if status == 403 {
        "Forbidden"@
    } else if status == 404 {
        "Not Found"@
    } else if status == 405 {
        "Method Not Allowed"@
    } else {
        "Error"@
    }
}

fn reason(status: u16) -> (r: &'static str)
    ensures
        r@ == reason_for(status),
{
    if status == 200 {
        "OK"
    } else if status == 400 {
        "Bad Request"
    } else if status == 403 {
        "Forbidden"
    } else if status == 404 {
        "Not Found"
    } else if status == 405 {
        "Method Not Allowed"
    } else {
        "Error"
    }
}

/// The head of a response.
pub open spec fn head_text(r: ResponseView) -> Seq<char> {
    "HTTP/1.1 "@ + decimal(r.status as nat) + " "@ + reason_for(r.status) + "\r\nContent-Type: "@
        + r.content_type + "\r\nContent-Length: "@ + decimal(r.body.len())
        + "\r\nCache-Control: no-cache\r\nConnection: close\r\n\r\n"@
}

/// A response as it goes over the connection.
pub fn respond(r: &Response) -> (v: Vec<u8>)
    ensures
        v@ == encode_utf8(head_text(r@)) + r@.body,
{
    let mut head: String = "HTTP/1.1 ".to_owned();
    push_decimal(&mut head, r.status as u64);
    push_text(&mut head, " ");
    push_text(&mut head, reason(r.status));
    push_text(&mut head, "\r\nContent-Type: ");
    push_text(&mut head, r.content_type.as_str());
    push_text(&mut head, "\r\nContent-Length: ");
    push_decimal(&mut head, r.body.len() as u64);
    push_text(&mut head, "\r\nCache-Control: no-cache\r\nConnection: close\r\n\r\n");
    assert(head@ =~= head_text(r@));
    let mut v: Vec<u8> = Vec::new();
    push_all(&mut v, head.as_str().as_bytes());
    push_all(&mut v, r.body.as_slice());
    assert(v@ =~= encode_utf8(head_text(r@)) + r@.body);
    v
}

/// Where the last `.` of the first `n` characters ends, or 0.
pub open spec fn last_dot(s: Seq<char>, n: int) -> int
    decreases n,
{
    if n <= 0 {
        0
    } else if s[n - 1] == '.' {
        n
    } else {
        last_dot(s, n - 1)
    }
}

/// What follows the last `.`, or everything where there is none.
pub open spec fn extension(s: Seq<char>) -> Seq<char> {
    s.skip(last_dot(s, s.len() as int))
}

/// The type of a file, by its name.
pub open spec fn type_for(path: Seq<char>) -> Seq<char> {
    let e = extension(path);
    if e == "html"@ {
        "text/html; charset=utf-8"@
    } else if e == "js"@ || e == "mjs"@ {
        "text/javascript; charset=utf-8"@
    } else if e == "css"@ {
        "text/css; charset=utf-8"@
    } else if e == "json"@ {
        "application/json"@
    } else if e == "svg"@ {
        "image/svg+xml"@
    } else if e == "png"@ {
        "image/png"@
    } else if e == "ico"@ {
        "image/x-icon"@
    } else if e == "woff2"@ {
        "font/woff2"@
    } else {
        "application/octet-stream"@
    }
}

/// Whether characters are those of a text.
fn is_text(s: &[char], t: &str) -> (b: bool)
    ensures
        b == (s@ == t@),
{
    let v: Vec<char> = chars_of(t);
    crate::text::eq_chars(s, v.as_slice())
}

pub fn content_type(path: &str) -> (t: &'static str)
    ensures
        t@ == type_for(path@),
{
    let chars: Vec<char> = chars_of(path);
    let n: usize = chars.len();
    let mut i: usize = n;
    while i > 0 && chars[i - 1] != '.'
        invariant
            n == chars@.len(),
            i <= n,
            last_dot(chars@, n as int) == last_dot(chars@, i as int),
        decreases i,
    {
        i = i - 1;
    }
    assert(chars@.subrange(i as int, n as int) =~= extension(chars@));
    let e: &[char] = &chars.as_slice()[i..n];
    if is_text(e, "html") {
        "text/html; charset=utf-8"
    } else if is_text(e, "js") || is_text(e, "mjs") {
        "text/javascript; charset=utf-8"
    } else if is_text(e, "css") {
        "text/css; charset=utf-8"
    } else if is_text(e, "json") {
        "application/json"
    } else if is_text(e, "svg") {
        "image/svg+xml"
    } else if is_text(e, "png") {
        "image/png"
    } else if is_text(e, "ico") {
        "image/x-icon"
    } else if is_text(e, "woff2") {
        "font/woff2"
    } else {
        "application/octet-stream"
    }
}

/// A text without the slashes at its start.
pub open spec fn without_slashes(s: Seq<char>) -> Seq<char>
    decreases s.len(),
{
    if s.len() > 0 && s[0] == '/' {
        without_slashes(s.skip(1))
    } else {
        s
    }
}

/// The file that a path asks for: without a query or a fragment, relative, and
/// the start page for the root.
pub open spec fn file_for(path: Seq<char>) -> Seq<char> {
    let p = before(before(path, '?'), '#');
    if p == "/"@ {
        "index.html"@
    } else {
        without_slashes(p)
    }
}

/// Whether a path could lead out of the directory.
pub open spec fn climbs(s: Seq<char>) -> bool {
    exists|i: int| 0 <= i && i + 1 < s.len() && #[trigger] s[i] == '.' && s[i + 1] == '.'
}

fn climbs_out(s: &[char]) -> (b: bool)
    ensures
        b == climbs(s@),
{
    let n: usize = s.len();
    let mut i: usize = 0;
    while i < n && n - i >= 2
        invariant
            n == s@.len(),
            i <= n,
            forall|j: int| 0 <= j < i && j + 1 < n ==> !(#[trigger] s@[j] == '.' && s@[j + 1] == '.'),
        decreases n - i,
    {
        if s[i] == '.' && s[i + 1] == '.' {
            return true;
        }
        i = i + 1;
    }
    false
}

fn relative_path(path: &str) -> (v: Vec<char>)
    ensures
        v@ == file_for(path@),
{
    let chars: Vec<char> = chars_of(path);
    let all: &[char] = chars.as_slice();
    let q: usize = find_char(all, '?');
    assert(all@.subrange(0, q as int) =~= before(all@, '?'));
    let no_query: &[char] = &all[0..q];
    let f: usize = find_char(no_query, '#');
    assert(no_query@.subrange(0, f as int) =~= before(no_query@, '#'));
    let p: &[char] = &no_query[0..f];
    if is_text(p, "/") {
        return chars_of("index.html");
    }
    let n: usize = p.len();
    let mut i: usize = 0;
    assert(p@.skip(0) =~= p@);
    while i < n && p[i] == '/'
        invariant
            n == p@.len(),
            i <= n,
            without_slashes(p@) == without_slashes(p@.skip(i as int)),
        decreases n - i,
    {
        assert(p@.skip(i as int).skip(1) =~= p@.skip(i + 1));
        i = i + 1;
    }
    let mut v: Vec<char> = Vec::new();
    v.extend_from_slice(&p[i..n]);
    assert(v@ =~= p@.skip(i as int));
    v
}

/// `include_dir::Dir`, a directory of files that are part of the program.
#[verifier::external_type_specification]
#[verifier::external_body]
pub struct ExDir<'a>(Dir<'a>);

/// The contents of the files of a directory, under every path by which they
/// are found.
pub uninterp spec fn files_of(d: Dir<'static>) -> Map<Seq<char>, Seq<u8>>;

/// `Dir::get_file` and `File::contents`: a copy of the contents of the file
/// with a path, if there is one.
#[verifier::external_body]
fn file_contents(d: &Dir<'static>, path: &str) -> (c: Option<Vec<u8>>)
    ensures
        match c {
            Some(v) => files_of(*d).contains_key(path@) && v@ == files_of(*d)[path@],
            None => !files_of(*d).contains_key(path@),
        },
{
    d.get_file(path).map(|f| f.contents().to_vec())
}

/// What a file of the client is answered, given its contents if it exists.
pub open spec fn file_response(name: Seq<char>, contents: Option<Seq<u8>>) -> ResponseView {
    if climbs(name) {
        plain(400, "bad path"@)
    } else {
        match contents {
            Some(c) => ResponseView { status: 200, content_type: type_for(name), body: c },
            None => plain(404, "not found"@),
        }
    }
}

/// Answer a request for a file, given its contents if it exists.
pub fn answer_file(name: &str, contents: Option<Vec<u8>>) -> (r: Response)
    ensures
        r@ == file_response(
            name@,
            match contents {
                Some(c) => Some(c@),
                None => None,
            },
        ),
{
    let chars: Vec<char> = chars_of(name);
    if climbs_out(chars.as_slice()) {
        return plain_response(400, "bad path");
    }
    match contents {
        Some(body) => Response { status: 200, content_type: content_type(name).to_owned(), body },
        None => plain_response(404, "not found"),
    }
}

/// Answer a request for a file of the client.
pub fn serve_static(web: &Dir<'static>, path: &str) -> (r: Response)
    ensures
        ({
            let name = file_for(path@);
            r@ == file_response(
                name,
                if !climbs(name) && files_of(*web).contains_key(name) {
                    Some(files_of(*web)[name])
                } else {
                    None
                },
            )
        }),
{
    let rel: Vec<char> = relative_path(path);
    let name: String = string_of(rel.as_slice());
    if climbs_out(rel.as_slice()) {
        return answer_file(name.as_str(), None);
    }
    let contents: Option<Vec<u8>> = file_contents(web, name.as_str());
    answer_file(name.as_str(), contents)
}

/// What a request is for.
#[derive(Clone, Copy, Debug, PartialEq, Eq, Structural)]
pub enum Route {
    /// A WebSocket.
    Upgrade,
    /// A file of the client.
    Static,
    /// Nothing that there is.
    NotAllowed,
}

/// What a request is for.
pub open spec fn route_of(r: RequestView) -> Route {
    if header_of(r.headers, "upgrade"@) is Some && same_folded(
        header_of(r.headers, "upgrade"@)->0,
        "websocket"@,
    ) {
        Route::Upgrade
    } else if r.method != "GET"@ && r.method != "HEAD"@ {
        Route::NotAllowed
    } else {
        Route::Static
    }
}

/// Decide what a request is for.
pub fn route(req: &Request) -> (r: Route)
    ensures
        r == route_of(req@),
{
    let upgrade: bool = match req.header("upgrade") {
        Some(v) => {
            let value: Vec<char> = chars_of(v);
            let word: Vec<char> = chars_of("websocket");
            eq_ignore_ascii_case(value.as_slice(), word.as_slice())
        },
        None => false,
    };
    if upgrade {
        return Route::Upgrade;
    }
    let method: Vec<char> = chars_of(req.method.as_str());
    if !is_text(method.as_slice(), "GET") && !is_text(method.as_slice(), "HEAD") {
        return Route::NotAllowed;
    }
    Route::Static
}

/// The answer to a request that is not allowed.
pub fn not_allowed() -> (r: Response)
    ensures
        r@ == plain(405, "method not allowed"@),
{
    plain_response(405, "method not allowed")
}

/// Whether a list of protocols, separated by commas, has "binary".
pub open spec fn offers_binary(v: Seq<char>) -> bool {
    exists|k: int| 0 <= k < pieces(v, ',').len() && #[trigger] offered(v, k) == "binary"@
}

/// The protocol at a place of a list.
pub open spec fn offered(v: Seq<char>, k: int) -> Seq<char> {
    trimmed(pieces(v, ',')[k])
}

fn has_binary(v: &str) -> (b: bool)
    ensures
        b == offers_binary(v@),
{
    let chars: Vec<char> = chars_of(v);
    let list: Vec<Vec<char>> = split(chars.as_slice(), ',');
    for k in 0..list.len()
        invariant
            texts(list@) == pieces(v@, ','),
            forall|j: int| 0 <= j < k ==> #[trigger] offered(v@, j) != "binary"@,
    {
        assert(list@[k as int]@ == texts(list@)[k as int]);
        if is_text(trim(list[k].as_slice()), "binary") {
            assert(offered(v@, k as int) == "binary"@);
            return true;
        }
    }
    assert(list@.len() == texts(list@).len());
    false
}

/// The answer that makes a connection a WebSocket. noVNC offers "binary" for
/// compatibility with old proxies; it is echoed back.
pub open spec fn upgrade_text(accept: Seq<char>, binary: bool) -> Seq<char> {
    "HTTP/1.1 101 Switching Protocols\r\nUpgrade: websocket\r\nConnection: Upgrade\r\nSec-WebSocket-Accept: "@
        + accept + "\r\n"@ + (if binary {
        "Sec-WebSocket-Protocol: binary\r\n"@
    } else {
        seq![]
    }) + "\r\n"@
}

pub fn upgrade_response(accept: &str, binary: bool) -> (s: String)
    ensures
        s@ == upgrade_text(accept@, binary),
{
    let mut s: String =
        "HTTP/1.1 101 Switching Protocols\r\nUpgrade: websocket\r\nConnection: Upgrade\r\nSec-WebSocket-Accept: ".to_owned();
    push_text(&mut s, accept);
    push_text(&mut s, "\r\n");
    if binary {
        push_text(&mut s, "Sec-WebSocket-Protocol: binary\r\n");
    }
    push_text(&mut s, "\r\n");
    assert(s@ =~= upgrade_text(accept@, binary));
    s
}

/// How a request for a WebSocket is answered.
pub enum Upgrade {
    /// With this text, after which the connection is a WebSocket.
    Accepted(String),
    Rejected(Response),
}

/// Answer a request for a WebSocket.
pub fn upgrade_websocket(req: &Request, allowed: &[String]) -> (u: Upgrade)
    ensures
        ({
            let h = req@.headers;
            let key = header_of(h, "sec-websocket-key"@);
            match u {
                Upgrade::Accepted(s) => {
                    &&& origin_is_allowed(h, lines_view(allowed@))
                    &&& key is Some
                    &&& s@ == upgrade_text(
                        base64_of(
                            sha1_of(
                                encode_utf8(key->0) + encode_utf8(
                                    "258EAFA5-E914-47DA-95CA-C5AB0DC85B11"@,
                                ),
                            ),
                        ),
                        header_of(h, "sec-websocket-protocol"@) is Some && offers_binary(
                            header_of(h, "sec-websocket-protocol"@)->0,
                        ),
                    )
                },
                Upgrade::Rejected(r) => if !origin_is_allowed(h, lines_view(allowed@)) {
                    r@ == plain(403, "cross-origin websocket rejected"@)
                } else {
                    key is None && r@ == plain(400, "missing Sec-WebSocket-Key"@)
                },
            }
        }),
{
    if !origin_allowed(req, allowed) {
        return Upgrade::Rejected(plain_response(403, "cross-origin websocket rejected"));
    }
    match req.header("sec-websocket-key") {
        None => Upgrade::Rejected(plain_response(400, "missing Sec-WebSocket-Key")),
        Some(key) => {
            let binary: bool = match req.header("sec-websocket-protocol") {
                Some(p) => has_binary(p),
                None => false,
            };
            Upgrade::Accepted(upgrade_response(accept_key(key).as_str(), binary))
        },
    }
}

proof fn lemma_scheme_is_skipped(scheme: Seq<char>, rest: Seq<char>, i: int)
    requires
        !scheme.contains(':'),
        0 <= i <= scheme.len(),
    ensures
        without_scheme(scheme + seq![':', '/', '/'] + rest, i) == rest,
    decreases scheme.len() - i,
{
    let s = scheme + seq![':', '/', '/'] + rest;
    if i < scheme.len() {
        assert(s[i] == scheme[i]);
        lemma_scheme_is_skipped(scheme, rest, i + 1);
    } else {
        assert(s.skip(i + 3) =~= rest);
    }
}

/// A page that came from this server may open a WebSocket to it: the browser
/// then names as the origin the host that the request goes to.
pub proof fn lemma_own_pages_are_allowed(
    headers: Seq<(Seq<char>, Seq<char>)>,
    allowed: Seq<Seq<char>>,
    scheme: Seq<char>,
    host: Seq<char>,
)
    requires
        header_of(headers, "host"@) == Some(host),
        header_of(headers, "origin"@) == Some(scheme + seq![':', '/', '/'] + host),
        !scheme.contains(':'),
        !host.contains(','),
        trimmed(host) == host,
    ensures
        origin_is_allowed(headers, allowed),
{
    lemma_scheme_is_skipped(scheme, host, 0);
    assert(pieces(host, ',') =~= seq![host]);
    assert(listed_host(host, 0) == host_part(host));
}

/// No path that is served leads out of the directory.
pub proof fn lemma_served_paths_stay_inside(path: Seq<char>, contents: Option<Seq<u8>>)
    ensures
        file_response(file_for(path), contents).status == 200 ==> !climbs(file_for(path)),
{
}

/// Whether text is a word: not empty, and without white characters.
pub open spec fn is_one_word(s: Seq<char>) -> bool {
    s.len() > 0 && forall|i: int| 0 <= i < s.len() ==> !is_white(#[trigger] s[i])
}

/// A request line names a method, a path and a version, with a space between them.
pub open spec fn request_line(
    method: Seq<char>,
    path: Seq<char>,
    version: Seq<char>,
) -> Seq<char> {
    method + seq![' '] + path + seq![' '] + version + seq!['\r', '\n']
}

/// A header is a line with a name, a colon and a value.
pub open spec fn header_line(name: Seq<char>, value: Seq<char>) -> Seq<char> {
    name + seq![':', ' '] + value + seq!['\r', '\n']
}

/// Whether a name and a value can stand in a header line.
pub open spec fn fits_a_line(h: (Seq<char>, Seq<char>)) -> bool {
    &&& bare(h.0) && h.0.len() > 0 && !h.0.contains(':')
    &&& bare(h.1) && h.1.len() > 0
}

/// The lines of headers, and the empty line that ends them.
pub open spec fn header_lines(headers: Seq<(Seq<char>, Seq<char>)>) -> Seq<Seq<char>> {
    Seq::new(
        headers.len() + 1,
        |i: int|
            if i < headers.len() {
                header_line(headers[i].0, headers[i].1)
            } else {
                seq!['\r', '\n']
            },
    )
}

/// How many bytes lines take on the wire.
pub open spec fn lines_len(lines: Seq<Seq<char>>) -> int
    decreases lines.len(),
{
    if lines.len() == 0 {
        0
    } else {
        lines_len(lines.drop_last()) + wire_len(lines.last())
    }
}

proof fn lemma_lines_len_grows(lines: Seq<Seq<char>>, k: int)
    requires
        0 <= k <= lines.len(),
    ensures
        0 <= lines_len(lines.take(k)) <= lines_len(lines),
    decreases lines.len() - k,
{
    lemma_lines_len_is_positive(lines.take(k));
    if k < lines.len() {
        lemma_lines_len_grows(lines, k + 1);
        assert(lines.take(k + 1).drop_last() =~= lines.take(k));
    } else {
        assert(lines.take(k) =~= lines);
    }
}

proof fn lemma_lines_len_is_positive(lines: Seq<Seq<char>>)
    ensures
        0 <= lines_len(lines),
    decreases lines.len(),
{
    if lines.len() > 0 {
        lemma_lines_len_is_positive(lines.drop_last());
    }
}

proof fn lemma_text_takes_bytes(s: Seq<char>)
    requires
        s.len() > 0,
    ensures
        wire_len(s) > 0,
{
    if encode_utf8(s).len() == 0 {
        vstd::utf8::encode_utf8_decode_utf8(s);
        vstd::utf8::encode_utf8_decode_utf8(seq![]);
        assert(encode_utf8(seq![]) =~= Seq::<u8>::empty());
        assert(encode_utf8(s) =~= Seq::<u8>::empty());
        assert(s =~= seq![]);
    }
}

proof fn lemma_line_ends_are_white()
    ensures
        is_white('\r') && is_white('\n') && is_white(' '),
        all_white(seq!['\r', '\n']),
        all_white(seq![' ']),
{
    lemma_ascii_white('\r');
    lemma_ascii_white('\n');
    lemma_ascii_white(' ');
}

proof fn lemma_header_line_is_read(
    headers: Seq<(Seq<char>, Seq<char>)>,
    name: Seq<char>,
    value: Seq<char>,
)
    requires
        fits_a_line((name, value)),
    ensures
        ({
            let line = trimmed_end(header_line(name, value));
            line.len() > 0 && with_line(headers, line) == headers.push((name, value))
        }),
{
    lemma_line_ends_are_white();
    let core = name + seq![':', ' '] + value;
    assert(core.last() == value.last());
    lemma_end_is_trimmed(core, seq!['\r', '\n']);
    assert(header_line(name, value) =~= core + seq!['\r', '\n']);
    assert(core =~= name + seq![':'] + (seq![' '] + value));
    lemma_text_is_cut(name, ':', seq![' '] + value);
    assert(core[name.len() as int] == ':');
    assert(core.contains(':'));
    lemma_ends_are_trimmed(seq![' '], value, seq![]);
    assert(seq![' '] + value + seq![] =~= seq![' '] + value);
    lemma_ends_are_trimmed(seq![], name, seq![]);
    assert(seq![] + name + seq![] =~= name);
}

proof fn lemma_headers_so_far(
    lines: Seq<Seq<char>>,
    headers: Seq<(Seq<char>, Seq<char>)>,
    k: int,
    r: RequestView,
)
    requires
        lines.len() == headers.len() + 2,
        lines.skip(1) == header_lines(headers),
        forall|i: int| 0 <= i < headers.len() ==> fits_a_line(#[trigger] headers[i]),
        0 <= k <= headers.len(),
        r.headers == headers.take(k),
        lines_len(lines) <= 16384,
    ensures
        read_headers(lines, k + 1, lines_len(lines.take(k + 1)), r) == RequestReadView::Done(
            RequestView { headers, ..r },
        ),
    decreases headers.len() - k,
{
    lemma_line_ends_are_white();
    let line = lines[k + 1];
    assert(line == lines.skip(1)[k]);
    assert(lines.take(k + 2).drop_last() =~= lines.take(k + 1));
    lemma_lines_len_grows(lines, k + 2);
    lemma_text_takes_bytes(line);
    if k < headers.len() {
        let h = headers[k];
        assert(fits_a_line(h));
        lemma_header_line_is_read(r.headers, h.0, h.1);
        assert(headers.take(k + 1) =~= headers.take(k).push(h));
        lemma_headers_so_far(
            lines,
            headers,
            k + 1,
            RequestView { headers: headers.take(k + 1), ..r },
        );
    } else {
        assert(line == seq!['\r', '\n']);
        lemma_end_is_trimmed(seq![], seq!['\r', '\n']);
        assert(seq![] + seq!['\r', '\n'] =~= line);
        assert(headers.take(k) =~= headers);
    }
}

/// A request is read as it was written: its method and its path from the first line,
/// and a name and a value from every line after it, in their order, up to the empty
/// one.
pub proof fn lemma_request_reads_back(
    method: Seq<char>,
    path: Seq<char>,
    version: Seq<char>,
    headers: Seq<(Seq<char>, Seq<char>)>,
)
    requires
        is_one_word(method) && is_one_word(path) && is_one_word(version),
        forall|i: int| 0 <= i < headers.len() ==> fits_a_line(#[trigger] headers[i]),
        lines_len(seq![request_line(method, path, version)] + header_lines(headers)) <= 16384,
    ensures
        request_of(seq![request_line(method, path, version)] + header_lines(headers))
            == RequestReadView::Done(RequestView { method, path, headers }),
{
    lemma_line_ends_are_white();
    let lines = seq![request_line(method, path, version)] + header_lines(headers);
    let first = lines[0];
    let core = method + seq![' '] + path + seq![' '] + version;
    assert(core.last() == version.last());
    assert(!is_white(version[version.len() - 1]));
    lemma_end_is_trimmed(core, seq!['\r', '\n']);
    assert(first =~= core + seq!['\r', '\n']);
    let tail = seq![' '] + path + seq![' '] + version;
    let rest = seq![' '] + version;
    assert(core =~= seq![] + method + tail);
    lemma_first_word_is_taken(seq![], method, tail);
    assert(tail =~= seq![' '] + path + rest);
    lemma_first_word_is_taken(seq![' '], path, rest);
    assert(lines.skip(1) =~= header_lines(headers));
    let r = RequestView { method, path, headers: seq![] };
    assert(headers.take(0) =~= seq![]);
    lemma_headers_so_far(lines, headers, 0, r);
    assert(lines.take(1).drop_last() =~= seq![]);
    assert(lines.take(1).last() == first);
    reveal_with_fuel(lines_len, 3);
    assert(lines_len(lines.take(1)) == wire_len(first));
}

/// A header is found by its name, whatever the case of its letters, and it is the first
/// of that name.
pub proof fn lemma_first_header_is_found(
    headers: Seq<(Seq<char>, Seq<char>)>,
    name: Seq<char>,
    i: int,
)
    requires
        0 <= i <= headers.len(),
        forall|j: int| 0 <= j < i ==> !same_folded((#[trigger] headers[j]).0, name),
        i < headers.len() ==> same_folded(headers[i].0, name),
    ensures
        header_of(headers, name) == (if i < headers.len() {
            Some(headers[i].1)
        } else {
            None
        }),
    decreases headers.len(),
{
    if i > 0 {
        assert(!same_folded(headers[0].0, name));
        let t = headers.skip(1);
        assert forall|j: int| 0 <= j < i - 1 implies !same_folded((#[trigger] t[j]).0, name) by {
            assert(t[j] == headers[j + 1]);
        }
        lemma_first_header_is_found(t, name, i - 1);
    }
}

/// Whether text is the name of a host: not empty, and without what sets a host apart
/// from a port or from other hosts.
pub open spec fn is_host(s: Seq<char>) -> bool {
    is_one_word(s) && !s.contains(':') && !s.contains(',') && s[0] != '['
}

proof fn lemma_host_of(host: Seq<char>, port: Seq<char>)
    requires
        is_host(host),
        is_one_word(port),
        !port.contains(','),
    ensures
        host_part(host) == host,
        host_part(host + seq![':'] + port) == host,
        pieces(host + seq![':'] + port, ',') == seq![host + seq![':'] + port],
        trimmed(host + seq![':'] + port) == host + seq![':'] + port,
{
    lemma_text_is_cut(host, ':', port);
    let s = host + seq![':'] + port;
    assert(s[0] == host[0]);
    if s.contains(',') {
        let i = choose|i: int| 0 <= i < s.len() && s[i] == ',';
        if i < host.len() {
            assert(host[i] == ',');
        } else if i > host.len() {
            assert(port[i - host.len() - 1] == ',');
        }
    }
    lemma_text_is_cut(s, ',', seq![]);
    assert(!is_white(host[0]) && !is_white(port[port.len() - 1]));
    assert(s.last() == port.last());
    lemma_ends_are_trimmed(seq![], s, seq![]);
    assert(seq![] + s + seq![] =~= s);
}

/// A page may open a WebSocket where its host is the one the request goes to, on
/// whatever port, or one that is allowed by name; a page of any other host may not.
pub proof fn lemma_other_pages_are_refused(
    headers: Seq<(Seq<char>, Seq<char>)>,
    allowed: Seq<Seq<char>>,
    scheme: Seq<char>,
    theirs: Seq<char>,
    their_port: Seq<char>,
    ours: Seq<char>,
    our_port: Seq<char>,
)
    requires
        header_of(headers, "origin"@) == Some(
            scheme + seq![':', '/', '/'] + (theirs + seq![':'] + their_port),
        ),
        header_of(headers, "host"@) == Some(ours + seq![':'] + our_port),
        header_of(headers, "x-forwarded-host"@) is None,
        !scheme.contains(':'),
        is_host(theirs) && is_host(ours),
        is_one_word(their_port) && is_one_word(our_port),
        !their_port.contains(',') && !our_port.contains(','),
        forall|i: int| 0 <= i < allowed.len() ==> is_host(#[trigger] allowed[i]),
    ensures
        origin_is_allowed(headers, allowed) <==> theirs == ours || allowed.contains(theirs),
{
    let origin = theirs + seq![':'] + their_port;
    let host = ours + seq![':'] + our_port;
    lemma_scheme_is_skipped(scheme, origin, 0);
    lemma_host_of(theirs, their_port);
    lemma_host_of(ours, our_port);
    assert(listed_host(host, 0) == ours);
    assert(lists_host(Some(host), theirs) <==> theirs == ours);
    assert forall|i: int| 0 <= i < allowed.len() implies host_part(#[trigger] allowed[i])
        == allowed[i] by {
        assert(is_host(allowed[i]));
        lemma_host_of(allowed[i], our_port);
    }
    if allowed.contains(theirs) {
        let i = choose|i: int| 0 <= i < allowed.len() && allowed[i] == theirs;
        assert(host_part(allowed[i]) == theirs);
    }
    if exists|i: int| 0 <= i < allowed.len() && host_part(#[trigger] allowed[i]) == theirs {
        let i = choose|i: int| 0 <= i < allowed.len() && host_part(#[trigger] allowed[i]) == theirs;
        assert(allowed[i] == theirs);
    }
}

/// A client without an origin, which no browser is, is let through.
pub proof fn lemma_no_origin_is_allowed(
    headers: Seq<(Seq<char>, Seq<char>)>,
    allowed: Seq<Seq<char>>,
)
    requires
        header_of(headers, "origin"@) is None,
    ensures
        origin_is_allowed(headers, allowed),
{
}

/// A path asks for the file of its name, whatever query or fragment follows, and the
/// bare root for the start page.
pub proof fn lemma_path_asks_for_its_file(name: Seq<char>, mark: char, more: Seq<char>)
    requires
        !name.contains('?') && !name.contains('#'),
        name.len() > 0 ==> name[0] != '/',
        mark == '?' || mark == '#',
    ensures
        ({
            let path = seq!['/'] + name;
            let file = if name.len() == 0 {
                "index.html"@
            } else {
                name
            };
            &&& file_for(path) == file
            &&& file_for(path + seq![mark] + more) == file
        }),
{
    reveal_strlit("/");
    let path = seq!['/'] + name;
    let longer = path + seq![mark] + more;
    assert forall|i: int| 0 <= i < path.len() implies path[i] != '?' && path[i] != '#' by {
        if i > 0 {
            assert(path[i] == name[i - 1]);
            if path[i] == '?' {
                assert(name.contains('?'));
            }
            if path[i] == '#' {
                assert(name.contains('#'));
            }
        }
    }
    lemma_text_is_cut(path, '?', more);
    lemma_text_is_cut(path, '#', more);
    if mark == '#' {
        // A query may still be cut off what follows the fragment's mark.
        lemma_next_char(longer, '?', 0);
        let k = next_char(longer, '?', 0);
        assert(k > path.len()) by {
            if k < path.len() {
                assert(longer[k] == path[k]);
            } else if k == path.len() {
                assert(longer[k] == '#');
            }
        }
        let cut = longer.take(k);
        assert(cut =~= path + seq!['#'] + more.take(k - path.len() - 1));
        lemma_text_is_cut(path, '#', more.take(k - path.len() - 1));
    }
    if name.len() == 0 {
        assert(path =~= "/"@);
    } else {
        assert(path != "/"@) by {
            assert(path.len() > 1);
        }
        reveal_with_fuel(without_slashes, 2);
        assert(path.skip(1) =~= name);
        assert(without_slashes(name) == name);
    }
}

proof fn lemma_extension(stem: Seq<char>, ext: Seq<char>)
    requires
        !ext.contains('.'),
    ensures
        extension(stem + seq!['.'] + ext) == ext,
{
    let s = stem + seq!['.'] + ext;
    let n = stem.len() as int;
    lemma_last_dot(s, s.len() as int, n + 1);
    assert(s.skip(n + 1) =~= ext);
}

proof fn lemma_last_dot(s: Seq<char>, n: int, at: int)
    requires
        0 < at <= n <= s.len(),
        s[at - 1] == '.',
        forall|i: int| at <= i < n ==> #[trigger] s[i] != '.',
    ensures
        last_dot(s, n) == at,
    decreases n,
{
    if n > at {
        assert(s[n - 1] != '.');
        lemma_last_dot(s, n - 1, at);
    }
}

/// A file is sent as what its name says it is.
pub proof fn lemma_files_have_their_types(stem: Seq<char>, other: Seq<char>)
    requires
        !other.contains('.'),
        other != "html"@ && other != "js"@ && other != "mjs"@ && other != "css"@,
        other != "json"@ && other != "svg"@ && other != "png"@ && other != "ico"@,
        other != "woff2"@,
    ensures
        type_for(stem + ".html"@) == "text/html; charset=utf-8"@,
        type_for(stem + ".js"@) == "text/javascript; charset=utf-8"@,
        type_for(stem + ".mjs"@) == "text/javascript; charset=utf-8"@,
        type_for(stem + ".css"@) == "text/css; charset=utf-8"@,
        type_for(stem + ".json"@) == "application/json"@,
        type_for(stem + ".svg"@) == "image/svg+xml"@,
        type_for(stem + ".png"@) == "image/png"@,
        type_for(stem + ".ico"@) == "image/x-icon"@,
        type_for(stem + ".woff2"@) == "font/woff2"@,
        type_for(stem + seq!['.'] + other) == "application/octet-stream"@,
{
    reveal_strlit("html");
    reveal_strlit("js");
    reveal_strlit("mjs");
    reveal_strlit("css");
    reveal_strlit("json");
    reveal_strlit("svg");
    reveal_strlit("png");
    reveal_strlit("ico");
    reveal_strlit("woff2");
    reveal_strlit(".html");
    reveal_strlit(".js");
    reveal_strlit(".mjs");
    reveal_strlit(".css");
    reveal_strlit(".json");
    reveal_strlit(".svg");
    reveal_strlit(".png");
    reveal_strlit(".ico");
    reveal_strlit(".woff2");
    assert("html"@[0] == 'h' && "json"@[0] == 'j' && "mjs"@[0] == 'm' && "css"@[0] == 'c');
    assert("svg"@[0] == 's' && "png"@[0] == 'p' && "ico"@[0] == 'i');
    assert(stem + ".html"@ =~= stem + seq!['.'] + "html"@);
    assert(stem + ".js"@ =~= stem + seq!['.'] + "js"@);
    assert(stem + ".mjs"@ =~= stem + seq!['.'] + "mjs"@);
    assert(stem + ".css"@ =~= stem + seq!['.'] + "css"@);
    assert(stem + ".json"@ =~= stem + seq!['.'] + "json"@);
    assert(stem + ".svg"@ =~= stem + seq!['.'] + "svg"@);
    assert(stem + ".png"@ =~= stem + seq!['.'] + "png"@);
    assert(stem + ".ico"@ =~= stem + seq!['.'] + "ico"@);
    assert(stem + ".woff2"@ =~= stem + seq!['.'] + "woff2"@);
    lemma_extension(stem, "html"@);
    lemma_extension(stem, "js"@);
    lemma_extension(stem, "mjs"@);
    lemma_extension(stem, "css"@);
    lemma_extension(stem, "json"@);
    lemma_extension(stem, "svg"@);
    lemma_extension(stem, "png"@);
    lemma_extension(stem, "ico"@);
    lemma_extension(stem, "woff2"@);
    lemma_extension(stem, other);
}

/// A file that is there is answered with its contents, one that is not with 404, and a
/// path with two dots in a row with 400, whether or not there is such a file.
pub proof fn lemma_files_are_answered(name: Seq<char>, contents: Option<Seq<u8>>, i: int)
    ensures
        0 <= i && i + 1 < name.len() && name[i] == '.' && name[i + 1] == '.' ==> file_response(
            name,
            contents,
        ).status == 400,
        (forall|k: int|
            0 <= k && k + 1 < name.len() ==> !(#[trigger] name[k] == '.' && name[k + 1] == '.'))
            ==> (match contents {
            Some(c) => {
                let r = file_response(name, contents);
                r.status == 200 && r.body == c && r.content_type == type_for(name)
            },
            None => file_response(name, contents).status == 404,
        }),
{
}

/// A response says its status, its type and the length of its body, each on a line of
/// its own, that it is not to be kept and that the connection ends with it.
pub proof fn lemma_response_head_has_its_lines(r: ResponseView)
    ensures
        ({
            let end = seq!['\r', '\n'];
            head_text(r) == "HTTP/1.1 "@ + decimal(r.status as nat) + seq![' '] + reason_for(
                r.status,
            ) + end + "Content-Type: "@ + r.content_type + end + "Content-Length: "@ + decimal(
                r.body.len(),
            ) + end + "Cache-Control: no-cache"@ + end + "Connection: close"@ + end + end
        }),
        reason_for(200) == "OK"@ && reason_for(400) == "Bad Request"@ && reason_for(403)
            == "Forbidden"@ && reason_for(404) == "Not Found"@ && reason_for(405)
            == "Method Not Allowed"@,
{
    reveal_strlit(" ");
    reveal_strlit("\r\nContent-Type: ");
    reveal_strlit("\r\nContent-Length: ");
    reveal_strlit("\r\nCache-Control: no-cache\r\nConnection: close\r\n\r\n");
    reveal_strlit("Content-Type: ");
    reveal_strlit("Content-Length: ");
    reveal_strlit("Cache-Control: no-cache");
    reveal_strlit("Connection: close");
    let end = seq!['\r', '\n'];
    assert(" "@ =~= seq![' ']);
    assert("\r\nContent-Type: "@ =~= end + "Content-Type: "@);
    assert("\r\nContent-Length: "@ =~= end + "Content-Length: "@);
    assert("\r\nCache-Control: no-cache\r\nConnection: close\r\n\r\n"@ =~= end
        + "Cache-Control: no-cache"@ + end + "Connection: close"@ + end + end);
    assert(head_text(r) =~= "HTTP/1.1 "@ + decimal(r.status as nat) + seq![' '] + reason_for(
        r.status,
    ) + end + "Content-Type: "@ + r.content_type + end + "Content-Length: "@ + decimal(r.body.len())
        + end + "Cache-Control: no-cache"@ + end + "Connection: close"@ + end + end);
}

/// An upgrade is accepted with the lines that WebSocket clients expect, the key's answer
/// among them, and the binary protocol where it was offered.
pub proof fn lemma_upgrade_has_its_lines(accept: Seq<char>, binary: bool)
    ensures
        ({
            let end = seq!['\r', '\n'];
            upgrade_text(accept, binary) == "HTTP/1.1 101 Switching Protocols"@ + end
                + "Upgrade: websocket"@ + end + "Connection: Upgrade"@ + end
                + "Sec-WebSocket-Accept: "@ + accept + end + (if binary {
                "Sec-WebSocket-Protocol: binary"@ + end
            } else {
                seq![]
            }) + end
        }),
{
    reveal_strlit("HTTP/1.1 101 Switching Protocols\r\nUpgrade: websocket\r\nConnection: Upgrade\r\nSec-WebSocket-Accept: ");
    reveal_strlit("HTTP/1.1 101 Switching Protocols");
    reveal_strlit("Upgrade: websocket");
    reveal_strlit("Connection: Upgrade");
    reveal_strlit("Sec-WebSocket-Accept: ");
    reveal_strlit("Sec-WebSocket-Protocol: binary");
    reveal_strlit("Sec-WebSocket-Protocol: binary\r\n");
    reveal_strlit("\r\n");
    let end = seq!['\r', '\n'];
    assert("\r\n"@ =~= end);
    assert("Sec-WebSocket-Protocol: binary\r\n"@ =~= "Sec-WebSocket-Protocol: binary"@ + end);
    assert("HTTP/1.1 101 Switching Protocols\r\nUpgrade: websocket\r\nConnection: Upgrade\r\nSec-WebSocket-Accept: "@
        =~= "HTTP/1.1 101 Switching Protocols"@ + end + "Upgrade: websocket"@ + end
        + "Connection: Upgrade"@ + end + "Sec-WebSocket-Accept: "@);
    assert(upgrade_text(accept, binary) =~= "HTTP/1.1 101 Switching Protocols"@ + end
        + "Upgrade: websocket"@ + end + "Connection: Upgrade"@ + end + "Sec-WebSocket-Accept: "@
        + accept + end + (if binary {
        "Sec-WebSocket-Protocol: binary"@ + end
    } else {
        seq![]
    }) + end);
}

/// A request that asks to upgrade to a WebSocket, whatever the case of the letters, is
/// for one; of the others those that get a file are for it, and the rest for nothing.
pub proof fn lemma_requests_find_their_way(r: RequestView, value: Seq<char>)
    requires
        header_of(r.headers, "upgrade"@) is Some ==> header_of(r.headers, "upgrade"@) == Some(value),
    ensures
        ({
            let asks = header_of(r.headers, "upgrade"@) is Some && value.len() == 9 && forall|i: int|
                0 <= i < 9 ==> same_letter(#[trigger] value[i], "websocket"@[i]);
            &&& route_of(r) is Upgrade <==> asks
            &&& route_of(r) is Static <==> !asks && (r.method == "GET"@ || r.method == "HEAD"@)
        }),
{
    reveal_strlit("websocket");
    lemma_case_does_not_count(value, "websocket"@);
}

/// Whether the binary protocol is on offer in a list: by itself or before others.
pub proof fn lemma_binary_is_found(more: Seq<char>, lead: Seq<char>, tail: Seq<char>)
    requires
        all_white(lead) && all_white(tail),
        !lead.contains(',') && !tail.contains(','),
    ensures
        offers_binary(lead + "binary"@ + tail),
        offers_binary(lead + "binary"@ + tail + seq![','] + more),
        !more.contains(',') ==> (offers_binary(more) <==> trimmed(more) == "binary"@),
{
    reveal_strlit("binary");
    let word = "binary"@;
    let one = lead + word + tail;
    assert forall|i: int| 0 <= i < 6 implies !is_white(#[trigger] word[i]) by {
        lemma_ascii_white(word[i]);
    }
    assert(!is_white(word[0]) && !is_white(word[5]));
    lemma_ends_are_trimmed(lead, word, tail);
    if one.contains(',') {
        let i = choose|i: int| 0 <= i < one.len() && one[i] == ',';
        if i < lead.len() {
            assert(lead[i] == ',');
        } else if i < lead.len() + 6 {
            assert(one[i] == word[i - lead.len()]);
        } else {
            assert(tail[i - lead.len() - 6] == ',');
        }
    }
    lemma_text_is_cut(one, ',', more);
    assert(offered(one, 0) == word);
    let list = one + seq![','] + more;
    assert(pieces(list, ',')[0] == one);
    assert(offered(list, 0) == word);
    if !more.contains(',') {
        lemma_text_is_cut(more, ',', seq![]);
        assert(offered(more, 0) == trimmed(more));
    }
}

/// A request that is not one is refused: with less than two words on its first line, or
/// with more than sixteen kibibytes of lines, or cut off before the empty one. As long as
/// that has not come and nothing is wrong, another line is awaited.
pub proof fn lemma_bad_requests_are_refused(
    lines: Seq<Seq<char>>,
    word: Seq<char>,
    tail: Seq<char>,
    i: int,
    total: int,
    r: RequestView,
)
    requires
        is_one_word(word),
        all_white(tail),
    ensures
        request_of(seq![]) is NeedLine,
        request_of(seq![tail]) == RequestReadView::Refused(RequestError::MalformedRequestLine),
        request_of(seq![word + tail]) == RequestReadView::Refused(
            RequestError::MalformedRequestLine,
        ),
        i >= lines.len() ==> read_headers(lines, i, total, r) is NeedLine,
        0 <= i < lines.len() && (lines[i].len() == 0 || total + wire_len(lines[i]) > 16384)
            ==> read_headers(lines, i, total, r) == RequestReadView::Refused(
            RequestError::HeadersTooLong,
        ),
{
    assert(encode_utf8(seq![]) =~= Seq::<u8>::empty());
    if 0 <= i < lines.len() && lines[i].len() == 0 {
        assert(lines[i] =~= seq![]);
    }
    assert(!is_white(word[word.len() - 1]));
    lemma_end_is_trimmed(word, tail);
    lemma_first_word_is_taken(seq![], word, seq![]);
    assert(seq![] + word + seq![] =~= word);
    lemma_end_is_trimmed(seq![], tail);
    assert(seq![] + tail =~= tail);
    let none = Seq::<char>::empty();
    assert(crate::text::trimmed_start(none) =~= none);
    assert(first_word(none) =~= none);
}

/// A host in brackets, as one of IPv6, keeps them and loses its port.
pub proof fn lemma_bracketed_hosts_stay_whole(inner: Seq<char>, port: Seq<char>)
    requires
        !inner.contains(']'),
    ensures
        host_part(seq!['['] + inner + seq![']'] + port) == seq!['['] + inner + seq![']'],
{
    let head = seq!['['] + inner;
    let s = head + seq![']'] + port;
    if head.contains(']') {
        let i = choose|i: int| 0 <= i < head.len() && head[i] == ']';
        assert(inner[i - 1] == ']');
    }
    lemma_next_char(s, ']', 0);
    let k = next_char(s, ']', 0);
    assert(s[head.len() as int] == ']');
    assert(s.contains(']'));
    if k < head.len() {
        assert(s[k] == head[k]);
    }
    assert(k == head.len());
    assert(s.take(k + 1) =~= seq!['['] + inner + seq![']']);
}

/// A list of hosts names a host if one of its pieces does, whatever white characters are
/// around it.
pub proof fn lemma_lists_name_their_hosts(first: Seq<char>, more: Seq<char>, host: Seq<char>)
    requires
        !first.contains(','),
    ensures
        hosts_in(first, host) <==> host_part(trimmed(first)) == host,
        hosts_in(first + seq![','] + more, host) <==> host_part(trimmed(first)) == host || hosts_in(
            more,
            host,
        ),
{
    lemma_text_is_cut(first, ',', more);
    let list = first + seq![','] + more;
    let (all, rest) = (pieces(list, ','), pieces(more, ','));
    assert(listed_host(first, 0) == host_part(trimmed(first)));
    assert(listed_host(list, 0) == host_part(trimmed(first)));
    if hosts_in(list, host) {
        let k = choose|k: int| 0 <= k < all.len() && #[trigger] listed_host(list, k) == host;
        if k > 0 {
            assert(all[k] == rest[k - 1]);
            assert(listed_host(more, k - 1) == host);
        }
    }
    if hosts_in(more, host) {
        let k = choose|k: int| 0 <= k < rest.len() && #[trigger] listed_host(more, k) == host;
        assert(all[k + 1] == rest[k]);
        assert(listed_host(list, k + 1) == host);
    }
}

/// A page is let through by any of three: a name that is allowed, the host of the
/// request, and the host that a proxy says the request was for.
pub proof fn lemma_three_ways_to_be_allowed(
    headers: Seq<(Seq<char>, Seq<char>)>,
    allowed: Seq<Seq<char>>,
    scheme: Seq<char>,
    theirs: Seq<char>,
)
    requires
        header_of(headers, "origin"@) == Some(scheme + seq![':', '/', '/'] + theirs),
        !scheme.contains(':'),
    ensures
        ({
            let host = host_part(theirs);
            let (named, forwarded) = (
                header_of(headers, "host"@),
                header_of(headers, "x-forwarded-host"@),
            );
            origin_is_allowed(headers, allowed) <==> {
                ||| exists|i: int|
                    0 <= i < allowed.len() && host_part(#[trigger] allowed[i]) == host
                ||| named is Some && hosts_in(named->0, host)
                ||| forwarded is Some && hosts_in(forwarded->0, host)
            }
        }),
{
    lemma_scheme_is_skipped(scheme, theirs, 0);
}

/// A short answer is text, as it is.
pub proof fn lemma_short_answers_are_text(name: Seq<char>)
    ensures
        !climbs(name) ==> file_response(name, None) == (ResponseView {
            status: 404,
            content_type: "text/plain"@,
            body: encode_utf8("not found"@),
        }),
        climbs(name) ==> file_response(name, None) == (ResponseView {
            status: 400,
            content_type: "text/plain"@,
            body: encode_utf8("bad path"@),
        }),
{
}

/// Whatever is on a header line, its name is what stands before the first colon and its
/// value what stands after it, both without white characters around them; a line without
/// a colon is passed over.
pub proof fn lemma_header_is_cut_at_the_colon(
    headers: Seq<(Seq<char>, Seq<char>)>,
    name: Seq<char>,
    value: Seq<char>,
)
    requires
        !name.contains(':'),
    ensures
        with_line(headers, name + seq![':'] + value) == headers.push(
            (trimmed(name), trimmed(value)),
        ),
        with_line(headers, name) == headers,
{
    lemma_text_is_cut(name, ':', value);
    let line = name + seq![':'] + value;
    assert(line[name.len() as int] == ':');
    assert(line.contains(':'));
}

/// Slashes at the front of a path make no difference, and a name without a dot has the
/// type that it would have as an extension.
pub proof fn lemma_slashes_and_bare_names(path: Seq<char>, stem: Seq<char>, name: Seq<char>)
    requires
        !name.contains('.'),
    ensures
        without_slashes(seq!['/'] + path) == without_slashes(path),
        path.len() > 0 && path[0] != '/' ==> without_slashes(path) == path,
        without_slashes(path).len() > 0 ==> without_slashes(path)[0] != '/',
        type_for(name) == type_for(stem + seq!['.'] + name),
    decreases path.len(),
{
    assert((seq!['/'] + path).skip(1) =~= path);
    if path.len() > 0 && path[0] == '/' {
        lemma_slashes_and_bare_names(path.skip(1), stem, name);
    }
    lemma_extension(stem, name);
    lemma_no_dot(name, name.len() as int);
    assert(name.skip(0) =~= name);
}

proof fn lemma_no_dot(s: Seq<char>, n: int)
    requires
        0 <= n <= s.len(),
        !s.contains('.'),
    ensures
        last_dot(s, n) == 0,
    decreases n,
{
    if n > 0 {
        assert(s[n - 1] != '.');
        lemma_no_dot(s, n - 1);
    }
}

} // verus!
