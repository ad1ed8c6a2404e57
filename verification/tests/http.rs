use rusted_cube::http::{
    content_type, handshake, page_body, read_bounded_line, read_request, requested_file, respond,
    Request, RequestHead, MAX_HEADER_BYTES,
};
use rusted_cube::stream::ByteStream;

fn request_from(text: &str) -> Option<Request> {
    read_request(&mut ByteStream::new(text.as_bytes().to_vec()))
}

#[test]
fn parses_a_websocket_upgrade() {
    let request = b"GET /ws HTTP/1.1\r\n\
        Host: localhost\r\n\
        Upgrade: websocket\r\n\
        Connection: keep-alive, Upgrade\r\n\
        Sec-WebSocket-Version: 13\r\n\
        Sec-WebSocket-Key: test-key\r\n\r\n";
    let mut input = ByteStream::new(request.to_vec());
    let request = read_request(&mut input).expect("valid request");

    assert_eq!(request.path, "/ws");
    assert_eq!(request.websocket_key(), Some("test-key"));
}

#[test]
fn rejects_oversized_headers() {
    let request = format!(
        "GET / HTTP/1.1\r\nX-Fill: {}\r\n\r\n",
        "x".repeat(MAX_HEADER_BYTES)
    );
    assert!(request_from(&request).is_none());
}

#[test]
fn headers_are_found_ignoring_case_and_trimmed() {
    let request = request_from("GET /a?b HTTP/1.0\r\nX-Thing :  some value  \r\nno colon here\r\n\r\n")
        .expect("valid request");
    assert_eq!(request.path, "/a?b");
    assert_eq!(request.headers.len(), 1);
    assert_eq!(request.header("x-thing"), Some("some value"));
    assert_eq!(request.header("missing"), None);
    assert_eq!(request.websocket_key(), None);
}

#[test]
fn only_get_requests_with_three_words_are_read() {
    assert!(request_from("POST / HTTP/1.1\r\n\r\n").is_none());
    assert!(request_from("GET / HTTP/1.1 extra\r\n\r\n").is_none());
    assert!(request_from("GET /\r\n\r\n").is_none());
    assert!(request_from("GET / FTP/1.1\r\n\r\n").is_none());
    assert!(request_from("").is_none());
}

#[test]
fn a_head_without_blank_line_ends_with_the_input() {
    let request = request_from("GET /x HTTP/1.1\r\nA: 1\r\n").expect("valid request");
    assert_eq!(request.header("a"), Some("1"));
}

#[test]
fn upgrade_needs_every_condition() {
    let base = |upgrade: &str, connection: &str, version: &str| {
        format!(
            "GET /ws HTTP/1.1\r\nUpgrade: {upgrade}\r\nConnection: {connection}\r\nSec-WebSocket-Version: {version}\r\nSec-WebSocket-Key: k\r\n\r\n"
        )
    };
    let key = |text: String| request_from(&text).and_then(|r| r.websocket_key().map(str::to_owned));
    assert_eq!(key(base("WebSocket", "upgrade", "13")), Some("k".to_owned()));
    assert_eq!(key(base("websocket", "keep-alive", "13")), None);
    assert_eq!(key(base("h2c", "upgrade", "13")), None);
    assert_eq!(key(base("websocket", "upgrade", "8")), None);
}

#[test]
fn the_head_is_built_line_by_line() {
    let mut head = RequestHead::start("GET /p HTTP/1.1\r\n", 17).expect("request line");
    assert_eq!(head.budget(), MAX_HEADER_BYTES - 17);
    assert!(head.add_line("Upgrade: websocket\r\n", 20));
    assert!(!head.add_line("\r\n", 2));
    let request = head.finish();
    assert_eq!(request.header("UPGRADE"), Some("websocket"));
    assert!(RequestHead::start("GET /p HTTP/1.1\r\n", 0).is_none());
}

#[test]
fn handshake_answers_with_the_accept_key() {
    let mut out = Vec::new();
    handshake(&mut out, "dGhlIHNhbXBsZSBub25jZQ==").expect("handshake");
    assert_eq!(
        String::from_utf8(out).unwrap(),
        "HTTP/1.1 101 Switching Protocols\r\nUpgrade: websocket\r\nConnection: Upgrade\r\nSec-WebSocket-Accept: s3pPLMBiTxaQ9kYGzzhZRbK+xOo=\r\n\r\n"
    );
}

#[test]
fn responses_carry_their_length() {
    let mut out = Vec::new();
    respond(&mut out, "404 Not Found", "text/plain", b"Not found").expect("respond");
    assert_eq!(
        String::from_utf8(out).unwrap(),
        "HTTP/1.1 404 Not Found\r\nContent-Type: text/plain\r\nContent-Length: 9\r\nCache-Control: no-cache\r\nConnection: close\r\n\r\nNot found"
    );
}

#[test]
fn content_types_follow_the_extension() {
    assert_eq!(content_type("index.html"), "text/html; charset=utf-8");
    assert_eq!(content_type("pkg/game_bg.wasm"), "application/wasm");
    assert_eq!(content_type("a.b.js"), "text/javascript; charset=utf-8");
    assert_eq!(content_type("styles.css"), "text/css; charset=utf-8");
    assert_eq!(content_type("icon.svg"), "image/svg+xml");
    assert_eq!(content_type("shot.png"), "image/png");
    assert_eq!(content_type("data.json"), "application/json");
    assert_eq!(content_type("notes.txt"), "text/plain; charset=utf-8");
    assert_eq!(content_type("README"), "application/octet-stream");
}

#[test]
fn requested_files_are_confined_to_the_site() {
    assert_eq!(requested_file("/"), Some("index.html".to_owned()));
    assert_eq!(requested_file("/?seed=4"), Some("index.html".to_owned()));
    assert_eq!(requested_file("//pkg/game.js?v=2"), Some("pkg/game.js".to_owned()));
    assert_eq!(requested_file("/../secret"), None);
    assert_eq!(requested_file("/a//b"), None);
    assert_eq!(requested_file("/a/"), None);
}

#[test]
fn html_pages_switch_on_multiplayer() {
    let page = br#"<html data-multiplayer="0"><p data-multiplayer="0"></p></html>"#.to_vec();
    let served = page_body("index.html", page.clone());
    assert_eq!(
        served,
        br#"<html data-multiplayer="1"><p data-multiplayer="1"></p></html>"#.to_vec()
    );
    assert_eq!(page_body("notes.txt", page.clone()), page);
    assert_eq!(page_body("bad.html", vec![0xff, 0x00]), vec![0xff, 0x00]);
}

#[test]
fn serves_the_home_page_with_multiplayer_enabled() {
    let home = br#"<!doctype html><html lang="en" data-multiplayer="0"><body><canvas></canvas></body></html>"#.to_vec();
    let file = requested_file("/").expect("the home page is served");
    let mut response = Vec::new();
    respond(&mut response, "200 OK", content_type(&file), &page_body(&file, home)).unwrap();
    let response = String::from_utf8(response).expect("text response");

    assert!(response.starts_with("HTTP/1.1 200 OK\r\n"));
    assert!(response.contains(r#"data-multiplayer="1""#));
}

#[test]
fn a_line_without_a_limit_is_read_whole() {
    let mut input = ByteStream::new(b"GET / HTTP/1.1\r\nHost: x\r\n".to_vec());
    let mut line = String::new();
    assert_eq!(read_bounded_line(&mut input, &mut line, usize::MAX), Some(16));
    assert_eq!(line, "GET / HTTP/1.1\r\n");
    let mut short = String::new();
    assert_eq!(read_bounded_line(&mut input, &mut short, 3), None);
}
