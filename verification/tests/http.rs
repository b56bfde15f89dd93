use include_dir::{Dir, DirEntry, File};
use rvnc::http::{
    answer_file, content_type, host_of, not_allowed, origin_allowed, read_request, respond, route,
    serve_static, upgrade_websocket, Request, RequestError, RequestRead, Response, Route, Upgrade,
};

fn lines(raw: &str) -> Vec<String> {
    raw.split_inclusive('\n').map(|l| l.to_string()).collect()
}

fn parse(raw: &str) -> Request {
    match read_request(&lines(raw)) {
        RequestRead::Done(r) => r,
        _ => panic!("no request in {raw:?}"),
    }
}

#[test]
fn parses_request_and_headers() {
    let req = parse("GET /websockify HTTP/1.1\r\nHost: box:6080\r\nUpgrade: websocket\r\n\r\n");
    assert_eq!(req.method, "GET");
    assert_eq!(req.path, "/websockify");
    assert_eq!(req.header("host"), Some("box:6080"));
    assert_eq!(req.header("UPGRADE"), Some("websocket"));
}

#[test]
fn same_origin_allowed_cross_origin_rejected() {
    let none: &[String] = &[];
    assert!(origin_allowed(&parse(
        "GET / HTTP/1.1\r\nHost: box:6080\r\nOrigin: http://box:6080\r\n\r\n"
    ), none));
    assert!(origin_allowed(&parse("GET / HTTP/1.1\r\nHost: box:6080\r\n\r\n"), none));
    assert!(!origin_allowed(&parse(
        "GET / HTTP/1.1\r\nHost: box:6080\r\nOrigin: http://evil.example\r\n\r\n"
    ), none));
}

#[test]
fn reverse_proxy_origins_are_accepted() {
    let none: &[String] = &[];
    // Caddy keeps the public Host: straightforward match.
    assert!(origin_allowed(&parse(
        "GET / HTTP/1.1\r\nHost: br.example.com\r\nOrigin: https://br.example.com\r\n\r\n"
    ), none));
    // A proxy that rewrites Host to the backend still forwards the real one.
    assert!(origin_allowed(&parse(
        "GET / HTTP/1.1\r\nHost: 10.0.3.138:8080\r\n\
         X-Forwarded-Host: br.example.com\r\nOrigin: https://br.example.com\r\n\r\n"
    ), none));
    // Neither header matches: still refused.
    assert!(!origin_allowed(&parse(
        "GET / HTTP/1.1\r\nHost: 10.0.3.138:8080\r\n\
         X-Forwarded-Host: br.example.com\r\nOrigin: https://evil.example\r\n\r\n"
    ), none));
}

#[test]
fn allow_origin_overrides_the_check() {
    let allowed = vec!["br.example.com".to_string()];
    assert!(origin_allowed(&parse(
        "GET / HTTP/1.1\r\nHost: 10.0.3.138:8080\r\nOrigin: https://br.example.com\r\n\r\n"
    ), &allowed));
    assert!(!origin_allowed(&parse(
        "GET / HTTP/1.1\r\nHost: 10.0.3.138:8080\r\nOrigin: https://other.example\r\n\r\n"
    ), &allowed));
}

#[test]
fn ipv6_literals_keep_their_address() {
    assert_eq!(host_of("[fc42::1]:8080"), "[fc42::1]");
    assert_eq!(host_of("box:6080"), "box");
    assert_eq!(host_of("box"), "box");
}

const CORE: &[DirEntry<'static>] =
    &[DirEntry::File(File::new("novnc/core/rfb.js", b"export default 1;"))];

const NOVNC: &[DirEntry<'static>] = &[DirEntry::Dir(Dir::new("novnc/core", CORE))];

const ENTRIES: &[DirEntry<'static>] = &[
    DirEntry::File(File::new("index.html", b"<!doctype html>")),
    DirEntry::Dir(Dir::new("novnc", NOVNC)),
];

const WEB: Dir<'static> = Dir::new("", ENTRIES);

#[test]
fn client_assets_are_embedded() {
    assert!(WEB.get_file("index.html").is_some());
    assert!(WEB.get_file("novnc/core/rfb.js").is_some());
    assert!(WEB.get_file("../../etc/passwd").is_none());
    assert_eq!(serve_static(&WEB, "/index.html").status, 200);
    assert_eq!(serve_static(&WEB, "/novnc/core/rfb.js").status, 200);
    assert_eq!(serve_static(&WEB, "/../../etc/passwd").status, 400);
}

#[test]
fn content_types_cover_the_client() {
    assert_eq!(content_type("index.html"), "text/html; charset=utf-8");
    assert_eq!(content_type("novnc/core/rfb.js"), "text/javascript; charset=utf-8");
}

fn refused(raw: &str) -> RequestError {
    match read_request(&lines(raw)) {
        RequestRead::Refused(e) => e,
        _ => panic!("{raw:?} was not refused"),
    }
}

#[test]
fn requests_are_read_line_by_line() {
    assert!(matches!(read_request(&[]), RequestRead::NeedLine));
    assert!(matches!(read_request(&lines("GET / HTTP/1.1\r\n")), RequestRead::NeedLine));
    assert!(matches!(
        read_request(&lines("GET / HTTP/1.1\r\nHost: a\r\n")),
        RequestRead::NeedLine
    ));
    let req = parse("GET  /a?b  HTTP/1.1\n X : y : z \nnonsense\n\n");
    assert_eq!(req.path, "/a?b");
    assert_eq!(req.headers, [("X".to_string(), "y : z".to_string())]);
    // The first of two wins.
    let twice = parse("GET / HTTP/1.1\r\nA: 1\r\na: 2\r\n\r\n");
    assert_eq!(twice.header("a"), Some("1"));
    assert_eq!(twice.header("b"), None);
}

#[test]
fn malformed_and_endless_requests_are_refused() {
    assert_eq!(refused("GET\r\n"), RequestError::MalformedRequestLine);
    assert_eq!(refused("\r\n"), RequestError::MalformedRequestLine);
    let mut cut_off = lines("GET / HTTP/1.1\r\nHost: a\r\n");
    cut_off.push(String::new());
    assert!(matches!(
        read_request(&cut_off),
        RequestRead::Refused(RequestError::HeadersTooLong)
    ));
    let long = format!("GET / HTTP/1.1\r\nA: {}\r\n\r\n", "x".repeat(16 * 1024));
    assert_eq!(refused(&long), RequestError::HeadersTooLong);
}

#[test]
fn requests_find_their_way() {
    let upgrade = parse("GET /websockify HTTP/1.1\r\nUpgrade: WebSocket\r\n\r\n");
    assert_eq!(route(&upgrade), Route::Upgrade);
    assert_eq!(route(&parse("HEAD / HTTP/1.1\r\n\r\n")), Route::Static);
    assert_eq!(route(&parse("GET / HTTP/1.1\r\nUpgrade: h2c\r\n\r\n")), Route::Static);
    assert_eq!(route(&parse("POST / HTTP/1.1\r\n\r\n")), Route::NotAllowed);
    assert_eq!(
        respond(&not_allowed()),
        b"HTTP/1.1 405 Method Not Allowed\r\nContent-Type: text/plain\r\n\
          Content-Length: 18\r\nCache-Control: no-cache\r\nConnection: close\r\n\r\n\
          method not allowed"
    );
}

fn rejection(raw: &str) -> Response {
    match upgrade_websocket(&parse(raw), &[]) {
        Upgrade::Rejected(r) => r,
        Upgrade::Accepted(_) => panic!("{raw:?} was accepted"),
    }
}

#[test]
fn upgrades_are_accepted_or_refused() {
    let r = rejection("GET / HTTP/1.1\r\nHost: a\r\nOrigin: http://b\r\nSec-WebSocket-Key: k\r\n\r\n");
    assert_eq!(r.status, 403);
    assert_eq!(r.body, b"cross-origin websocket rejected");
    let r = rejection("GET / HTTP/1.1\r\nHost: a\r\n\r\n");
    assert_eq!(r.status, 400);
    assert_eq!(r.body, b"missing Sec-WebSocket-Key");

    let ask = "GET / HTTP/1.1\r\nHost: a\r\nSec-WebSocket-Key: dGhlIHNhbXBsZSBub25jZQ==\r\n";
    let accepted = |extra: &str| match upgrade_websocket(&parse(&format!("{ask}{extra}\r\n")), &[]) {
        Upgrade::Accepted(text) => text,
        Upgrade::Rejected(r) => panic!("refused with {}", r.status),
    };
    let plain = "HTTP/1.1 101 Switching Protocols\r\nUpgrade: websocket\r\n\
                 Connection: Upgrade\r\nSec-WebSocket-Accept: s3pPLMBiTxaQ9kYGzzhZRbK+xOo=\r\n";
    assert_eq!(accepted(""), format!("{plain}\r\n"));
    assert_eq!(
        accepted("Sec-WebSocket-Protocol: base64, binary\r\n"),
        format!("{plain}Sec-WebSocket-Protocol: binary\r\n\r\n")
    );
    assert_eq!(accepted("Sec-WebSocket-Protocol: binary2\r\n"), format!("{plain}\r\n"));
}

#[test]
fn files_are_served_with_their_contents() {
    let page = serve_static(&WEB, "/?password=x");
    assert_eq!(page.status, 200);
    assert_eq!(page.content_type, "text/html; charset=utf-8");
    assert_eq!(page.body, b"<!doctype html>");
    let script = serve_static(&WEB, "//novnc/core/rfb.js#top");
    assert_eq!(script.body, b"export default 1;");
    let missing = serve_static(&WEB, "/nope");
    assert_eq!((missing.status, &missing.body[..]), (404, &b"not found"[..]));
    let outside = serve_static(&WEB, "/a..b");
    assert_eq!((outside.status, &outside.body[..]), (400, &b"bad path"[..]));
    let held = answer_file("x.png", Some(vec![1, 2]));
    assert_eq!((held.status, held.body), (200, vec![1, 2]));
    assert_eq!(held.content_type, "image/png");
}

#[test]
fn types_go_by_the_extension() {
    for (name, want) in [
        ("a.mjs", "text/javascript; charset=utf-8"),
        ("a.css", "text/css; charset=utf-8"),
        ("a.json", "application/json"),
        ("a.svg", "image/svg+xml"),
        ("a.ico", "image/x-icon"),
        ("a.woff2", "font/woff2"),
        ("a.html.gz", "application/octet-stream"),
        ("html", "text/html; charset=utf-8"),
        ("", "application/octet-stream"),
    ] {
        assert_eq!(content_type(name), want, "{name}");
    }
}
