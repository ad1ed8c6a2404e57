//! The server's HTTP side: reading a request head within a byte budget,
//! recognising a WebSocket upgrade, and writing responses.
//!
//! The server hands the bytes it reads from a connection to these functions
//! and writes what they produce back; file access stays with the server.

use vstd::prelude::*;
use vstd::utf8::*;

use crate::stream::{lemma_line_end_bound, line_end, ByteStream};
use crate::text::{
    decimal, ends_with, lemma_split_on_nonempty, push_decimal, push_str, push_utf8,
    replace_all, replace_chars, string_from_utf8, utf8_bytes, chars_of, eq_ignore_ascii_case, find_char, index_of, same_chars, same_ignoring_case,
    split_chars, split_on, split_words, starts_with, string_of, trim, trim_chars, trim_end,
    trim_end_len, trimmed_range, views, words,
};
use crate::websocket::{accept_key, spec_accept_key};


verus! {

/// A request head may use at most this many bytes.
pub const MAX_HEADER_BYTES: usize = 8192;

/// A parsed `GET` request: its target and its header fields, in order.
pub struct Request {
    pub path: String,
    pub headers: Vec<(String, String)>,
}

pub struct RequestView {
    pub path: Seq<char>,
    pub headers: Seq<(Seq<char>, Seq<char>)>,
}

pub open spec fn header_views(headers: Seq<(String, String)>) -> Seq<(Seq<char>, Seq<char>)> {
    headers.map_values(|h: (String, String)| (h.0@, h.1@))
}

impl View for Request {
    type V = RequestView;

    open spec fn view(&self) -> RequestView {
        RequestView { path: self.path@, headers: header_views(self.headers@) }
    }
}

/// Value of the first header whose name matches `wanted`, ignoring ASCII
/// case.
pub open spec fn find_header(headers: Seq<(Seq<char>, Seq<char>)>, wanted: Seq<char>) -> Option<
    Seq<char>,
>
    decreases headers.len(),
{
    if headers.len() == 0 {
        None
    } else if eq_ignore_ascii_case(headers[0].0, wanted) {
        Some(headers[0].1)
    } else {
        find_header(headers.drop_first(), wanted)
    }
}

/// Whether one comma-separated token of `value`, trimmed, is `token`
/// ignoring ASCII case.
pub open spec fn has_token(value: Seq<char>, token: Seq<char>) -> bool {
    exists|k: int|
        0 <= k < split_on(value, ',').len() && eq_ignore_ascii_case(
            trim(#[trigger] split_on(value, ',')[k]),
            token,
        )
}

/// The key of a valid WebSocket upgrade request: `Upgrade: websocket`, a
/// `Connection` header listing `upgrade`, version 13, and a key.
pub open spec fn spec_websocket_key(request: RequestView) -> Option<Seq<char>> {
    let upgrade = find_header(request.headers, "upgrade"@);
    let connection = find_header(request.headers, "connection"@);
    let version = find_header(request.headers, "sec-websocket-version"@);
    let key = find_header(request.headers, "sec-websocket-key"@);
    if upgrade is Some && connection is Some && version is Some && key is Some {
        if eq_ignore_ascii_case(upgrade.unwrap(), "websocket"@) && has_token(
            connection.unwrap(),
            "upgrade"@,
        ) && version.unwrap() == "13"@ {
            key
        } else {
            None
        }
    } else {
        None
    }
}

impl Request {
    /// The value of the first header named `wanted`, ignoring ASCII case.
    pub fn header(&self, wanted: &str) -> (r: Option<&str>)
        ensures
            match find_header(self@.headers, wanted@) {
                Some(value) => r matches Some(v) && v@ == value,
                None => r is None,
            },
    {
        let wanted_chars = chars_of(wanted);
        let ghost all = header_views(self.headers@);
        let mut i: usize = 0;
        assert(all.skip(0) =~= all);
        while i < self.headers.len()
            invariant
                i <= self.headers@.len(),
                all == header_views(self.headers@),
                wanted_chars@ == wanted@,
                find_header(all, wanted@) == find_header(all.skip(i as int), wanted@),
            decreases self.headers.len() - i,
        {
            let name = chars_of(self.headers[i].0.as_str());
            assert(all.skip(i as int)[0] == all[i as int]);
            if same_ignoring_case(&name, &wanted_chars) {
                return Some(self.headers[i].1.as_str());
            }
            assert(all.skip(i as int).drop_first() =~= all.skip(i + 1));
            i = i + 1;
        }
        None
    }

    /// The `Sec-WebSocket-Key` of a valid upgrade request.
    pub fn websocket_key(&self) -> (r: Option<&str>)
        ensures
            match spec_websocket_key(self@) {
                Some(key) => r matches Some(k) && k@ == key,
                None => r is None,
            },
    {
        let upgrade = self.header("upgrade")?;
        let connection = self.header("connection")?;
        let version = self.header("sec-websocket-version")?;
        let key = self.header("sec-websocket-key")?;
        let connection_upgrades = lists_token(&chars_of(connection), &chars_of("upgrade"));
        let upgrade_ok = same_ignoring_case(&chars_of(upgrade), &chars_of("websocket"));
        let version_ok = same_chars(&chars_of(version), &chars_of("13"));
        if upgrade_ok && connection_upgrades && version_ok {
            Some(key)
        } else {
            None
        }
    }
}

/// Whether one comma-separated token of `value` is `token`.
fn lists_token(value: &Vec<char>, token: &Vec<char>) -> (r: bool)
    ensures
        r == has_token(value@, token@),
{
    let pieces = split_chars(value, ',');
    let ghost all = split_on(value@, ',');
    let mut k: usize = 0;
    while k < pieces.len()
        invariant
            k <= pieces@.len(),
            views(pieces@) == all,
            all == split_on(value@, ','),
            forall|j: int|
                0 <= j < k ==> !eq_ignore_ascii_case(trim(#[trigger] all[j]), token@),
        decreases pieces.len() - k,
    {
        let trimmed = trim_chars(&pieces[k]);
        assert(all[k as int] == pieces@[k as int]@);
        if same_ignoring_case(&trimmed, token) {
            return true;
        }
        k = k + 1;
    }
    false
}

// ---------------------------------------------------------------- request head

/// The target of a request line `GET <path> HTTP/...` with exactly three
/// whitespace-separated words.
pub open spec fn request_line_path(line: Seq<char>) -> Option<Seq<char>> {
    let w = words(line);
    if w.len() == 3 && w[0] == "GET"@ && w[2].len() >= "HTTP/"@.len() && w[2].take(
        "HTTP/"@.len() as int,
    ) == "HTTP/"@ {
        Some(w[1])
    } else {
        None
    }
}

/// What one header line contributes.
pub enum HeaderLine {
    /// The blank line that ends the head.
    End,
    /// A line without a colon, which is ignored.
    Skip,
    /// `name: value`, both trimmed.
    Field(Seq<char>, Seq<char>),
}

pub open spec fn header_line(line: Seq<char>) -> HeaderLine {
    let t = trim_end(line);
    if t.len() == 0 {
        HeaderLine::End
    } else {
        match index_of(t, ':') {
            Some(k) => HeaderLine::Field(trim(t.take(k)), trim(t.skip(k + 1))),
            None => HeaderLine::Skip,
        }
    }
}

/// A request head being read: its target, the fields so far, and the bytes
/// used so far.
pub struct RequestHead {
    path: String,
    headers: Vec<(String, String)>,
    consumed: usize,
}

pub struct HeadView {
    pub path: Seq<char>,
    pub headers: Seq<(Seq<char>, Seq<char>)>,
    pub consumed: nat,
}

impl View for RequestHead {
    type V = HeadView;

    closed spec fn view(&self) -> HeadView {
        HeadView {
            path: self.path@,
            headers: header_views(self.headers@),
            consumed: self.consumed as nat,
        }
    }
}

/// The head after one more line of `read` bytes, and whether to read on.
pub open spec fn add_line(head: HeadView, line: Seq<char>, read: nat) -> (HeadView, bool) {
    let consumed = head.consumed + read;
    match header_line(line) {
        HeaderLine::End => (HeadView { consumed, ..head }, false),
        HeaderLine::Skip => (HeadView { consumed, ..head }, true),
        HeaderLine::Field(name, value) => (
            HeadView { consumed, headers: head.headers.push((name, value)), ..head },
            true,
        ),
    }
}

impl RequestHead {
    pub closed spec fn wf(&self) -> bool {
        self.consumed <= MAX_HEADER_BYTES
    }

    /// Starts a head from its first line, which used `read` bytes.
    pub fn start(line: &str, read: usize) -> (r: Option<RequestHead>)
        requires
            read <= MAX_HEADER_BYTES,
        ensures
            r is Some <==> read != 0 && request_line_path(line@) is Some,
            r matches Some(head) ==> head.wf() && head@ == (HeadView {
                path: request_line_path(line@).unwrap(),
                headers: Seq::empty(),
                consumed: read as nat,
            }),
    {
        if read == 0 {
            return None;
        }
        let parts = split_words(&chars_of(line));
        if parts.len() != 3 {
            return None;
        }
        let method_ok = same_chars(&parts[0], &chars_of("GET"));
        let version_ok = starts_with(&parts[2], &chars_of("HTTP/"));
        if !method_ok || !version_ok {
            return None;
        }
        let head = RequestHead { path: string_of(&parts[1]), headers: Vec::new(), consumed: read };
        assert(header_views(head.headers@) =~= Seq::empty());
        Some(head)
    }

    /// Bytes the next line may use.
    pub fn budget(&self) -> (n: usize)
        requires
            self.wf(),
        ensures
            n == MAX_HEADER_BYTES - self@.consumed,
    {
        MAX_HEADER_BYTES - self.consumed
    }

    /// Adds a header line that used `read` bytes; `false` once the head is
    /// complete.
    pub fn add_line(&mut self, line: &str, read: usize) -> (more: bool)
        requires
            old(self).wf(),
            read <= MAX_HEADER_BYTES - old(self)@.consumed,
        ensures
            final(self).wf(),
            (final(self)@, more) == add_line(old(self)@, line@, read as nat),
    {
        self.consumed = self.consumed + read;
        let chars = chars_of(line);
        let end = trim_end_len(&chars);
        if end == 0 {
            assert(header_line(line@) == HeaderLine::End);
            return false;
        }
        let ghost t = chars@.take(end as int);
        let mut trimmed: Vec<char> = Vec::new();
        let mut i: usize = 0;
        while i < end
            invariant
                i <= end <= chars@.len(),
                trimmed@ == chars@.take(i as int),
            decreases end - i,
        {
            trimmed.push(chars[i]);
            i = i + 1;
            assert(chars@.take(i as int) =~= chars@.take(i - 1).push(chars@[i - 1]));
        }
        match find_char(&trimmed, ':') {
            Some(separator) => {
                let name = trimmed_range(&trimmed, 0, separator);
                let value = trimmed_range(&trimmed, separator + 1, trimmed.len());
                assert(t.subrange(0, separator as int) =~= t.take(separator as int));
                assert(t.subrange(separator + 1, t.len() as int) =~= t.skip(separator + 1));
                let ghost before = header_views(self.headers@);
                self.headers.push((name, value));
                assert(header_views(self.headers@) =~= before.push(
                    (trim(t.take(separator as int)), trim(t.skip(separator + 1))),
                ));
                assert(header_line(line@) == HeaderLine::Field(
                    trim(t.take(separator as int)),
                    trim(t.skip(separator + 1)),
                ));
                true
            },
            None => {
                assert(header_line(line@) == HeaderLine::Skip);
                true
            },
        }
    }

    /// The request this head describes.
    pub fn finish(self) -> (r: Request)
        ensures
            r@ == (RequestView { path: self@.path, headers: self@.headers }),
    {
        Request { path: self.path, headers: self.headers }
    }
}

// ---------------------------------------------------------------- reading lines

/// How many bytes a line of at most `remaining` bytes is looked for in:
/// one more than `remaining`, saturating at the largest `usize`.
pub open spec fn line_window(remaining: nat) -> nat {
    if remaining < usize::MAX {
        remaining + 1
    } else {
        remaining
    }
}

/// One line of at most `remaining` bytes from the front of `input`: its text
/// and its length in bytes. At most `line_window(remaining)` bytes are
/// looked at; `None` when the line is longer than `remaining` or is not
/// UTF-8.
pub open spec fn spec_bounded_line(input: Seq<u8>, remaining: nat) -> Option<(Seq<char>, nat)> {
    let window = if line_window(remaining) <= input.len() {
        input.take(line_window(remaining) as int)
    } else {
        input
    };
    let n = line_end(window);
    let bytes = window.take(n as int);
    if valid_utf8(bytes) && n <= remaining {
        Some((decode_utf8(bytes), n))
    } else {
        None
    }
}

pub proof fn lemma_bounded_line_length(input: Seq<u8>, remaining: nat)
    ensures
        spec_bounded_line(input, remaining) matches Some((_, n)) ==> n <= input.len(),
{
    let window = if line_window(remaining) <= input.len() {
        input.take(line_window(remaining) as int)
    } else {
        input
    };
    lemma_line_end_bound(window);
}

/// Reads one line of at most `remaining` bytes from `stream` into `line`.
pub fn read_bounded_line(stream: &mut ByteStream, line: &mut String, remaining: usize) -> (r: Option<usize>)
    requires
        old(stream).wf(),
    ensures
        final(stream).wf(),
        match spec_bounded_line(old(stream)@, remaining as nat) {
            Some((text, n)) => r == Some(n as usize) && final(line)@ == old(line)@ + text
                && final(stream)@ == old(stream)@.skip(n as int),
            None => r is None,
        },
{
    let ghost input = stream@;
    let limit = if remaining < usize::MAX {
        remaining + 1
    } else {
        remaining
    };
    let n = stream.line_length(limit);
    proof {
        let window = if line_window(remaining as nat) <= input.len() {
            input.take(line_window(remaining as nat) as int)
        } else {
            input
        };
        assert(input.take(if limit <= input.len() { limit as int } else { input.len() as int }) =~= window);
        lemma_line_end_bound(window);
    }
    let bytes = match stream.read_exact(n) {
        Some(bytes) => bytes,
        None => return None,
    };
    proof {
        let window = if line_window(remaining as nat) <= input.len() {
            input.take(line_window(remaining as nat) as int)
        } else {
            input
        };
        assert(bytes@ =~= window.take(n as int));
    }
    let text = string_from_utf8(bytes)?;
    if n > remaining {
        return None;
    }
    push_str(line, text.as_str());
    Some(n)
}

/// The head after reading header lines from `input`, or `None` when a line
/// is over budget or not UTF-8. Stops at a blank line or at the end of the
/// input.
pub open spec fn spec_read_headers(input: Seq<u8>, head: HeadView) -> Option<HeadView>
    decreases input.len(),
{
    if head.consumed > MAX_HEADER_BYTES {
        None
    } else {
        match spec_bounded_line(input, (MAX_HEADER_BYTES - head.consumed) as nat) {
            None => None,
            Some((line, read)) => {
                if read == 0 {
                    Some(head)
                } else {
                    let (next, more) = add_line(head, line, read);
                    if more {
                        proof {
                            lemma_bounded_line_length(
                                input,
                                (MAX_HEADER_BYTES - head.consumed) as nat,
                            );
                        }
                        spec_read_headers(input.skip(read as int), next)
                    } else {
                        Some(next)
                    }
                }
            },
        }
    }
}

/// The request whose head starts `input`, read within [`MAX_HEADER_BYTES`].
pub open spec fn spec_read_request(input: Seq<u8>) -> Option<RequestView> {
    match spec_bounded_line(input, MAX_HEADER_BYTES as nat) {
        None => None,
        Some((line, read)) => {
            if read == 0 {
                None
            } else {
                match request_line_path(line) {
                    None => None,
                    Some(path) => match spec_read_headers(
                        input.skip(read as int),
                        HeadView { path, headers: Seq::empty(), consumed: read },
                    ) {
                        Some(head) => Some(RequestView { path: head.path, headers: head.headers }),
                        None => None,
                    },
                }
            }
        },
    }
}

/// Reads a `GET` request head from `stream`: the request line, then header
/// lines up to a blank line, all within [`MAX_HEADER_BYTES`].
pub fn read_request(stream: &mut ByteStream) -> (r: Option<Request>)
    requires
        old(stream).wf(),
    ensures
        match spec_read_request(old(stream)@) {
            Some(request) => r matches Some(req) && req@ == request,
            None => r is None,
        },
{
    let ghost input = stream@;
    let mut line = String::new();
    let consumed = read_bounded_line(stream, &mut line, MAX_HEADER_BYTES)?;
    assert(line@ =~= spec_bounded_line(input, MAX_HEADER_BYTES as nat).unwrap().0);
    let mut head = RequestHead::start(line.as_str(), consumed)?;
    let ghost start = head@;
    let ghost rest = stream@;
    assert(rest == input.skip(consumed as int));
    assert(spec_read_request(input) == match spec_read_headers(rest, start) {
        Some(h) => Some(RequestView { path: h.path, headers: h.headers }),
        None => None,
    });
    loop
        invariant_except_break
            stream.wf(),
            head.wf(),
            spec_read_headers(stream@, head@) == spec_read_headers(rest, start),
            input == old(stream)@,
            spec_read_request(input) == match spec_read_headers(rest, start) {
                Some(h) => Some(RequestView { path: h.path, headers: h.headers }),
                None => None,
            },
        ensures
            head.wf(),
            spec_read_headers(rest, start) == Some(head@),
        decreases stream@.len(),
    {
        let ghost before = stream@;
        let ghost head_before = head@;
        let remaining = head.budget();
        let mut header = String::new();
        let read = match read_bounded_line(stream, &mut header, remaining) {
            Some(read) => read,
            None => {
                assert(spec_read_headers(before, head_before) is None);
                return None;
            },
        };
        assert(header@ =~= spec_bounded_line(before, remaining as nat).unwrap().0);
        proof {
            lemma_bounded_line_length(before, remaining as nat);
        }
        if read == 0 {
            assert(spec_read_headers(before, head_before) == Some(head_before));
            break;
        }
        let more = head.add_line(header.as_str(), read);
        assert(spec_read_headers(before, head_before) == if more {
            spec_read_headers(stream@, head@)
        } else {
            Some(head@)
        });
        if !more {
            break;
        }
    }
    Some(head.finish())
}

// ---------------------------------------------------------------- responses

/// The text of the `101 Switching Protocols` answer to a handshake.
pub open spec fn handshake_text(key: Seq<char>) -> Seq<char> {
    "HTTP/1.1 101 Switching Protocols\r\nUpgrade: websocket\r\nConnection: Upgrade\r\nSec-WebSocket-Accept: "@
        + spec_accept_key(key) + "\r\n\r\n"@
}

/// Appends the handshake answer for `key` to `stream`.
pub fn handshake(stream: &mut Vec<u8>, key: &str) -> (r: std::io::Result<()>)
    ensures
        r is Ok,
        final(stream)@ == old(stream)@ + encode_utf8(handshake_text(key@)),
{
    let mut response = String::new();
    push_str(
        &mut response,
        "HTTP/1.1 101 Switching Protocols\r\nUpgrade: websocket\r\nConnection: Upgrade\r\nSec-WebSocket-Accept: ",
    );
    let accept = accept_key(key);
    push_str(&mut response, accept.as_str());
    push_str(&mut response, "\r\n\r\n");
    push_utf8(stream, response.as_str());
    Ok(())
}

/// The head of a response with the given status, type and body length.
pub open spec fn response_head(status: Seq<char>, content_type: Seq<char>, length: nat) -> Seq<char> {
    "HTTP/1.1 "@ + status + "\r\nContent-Type: "@ + content_type + "\r\nContent-Length: "@
        + decimal(length) + "\r\nCache-Control: no-cache\r\nConnection: close\r\n\r\n"@
}

/// Appends a complete response, head then body, to `stream`.
pub fn respond(stream: &mut Vec<u8>, status: &str, content_type: &str, body: &[u8]) -> (r:
    std::io::Result<()>)
    ensures
        r is Ok,
        final(stream)@ == old(stream)@ + encode_utf8(
            response_head(status@, content_type@, body@.len()),
        ) + body@,
{
    let mut header = String::new();
    push_str(&mut header, "HTTP/1.1 ");
    push_str(&mut header, status);
    push_str(&mut header, "\r\nContent-Type: ");
    push_str(&mut header, content_type);
    push_str(&mut header, "\r\nContent-Length: ");
    push_decimal(&mut header, body.len() as u64);
    push_str(&mut header, "\r\nCache-Control: no-cache\r\nConnection: close\r\n\r\n");
    assert(header@ =~= response_head(status@, content_type@, body@.len()));
    push_utf8(stream, header.as_str());
    let ghost head = stream@;
    let mut i: usize = 0;
    while i < body.len()
        invariant
            i <= body@.len(),
            stream@ == head + body@.take(i as int),
        decreases body.len() - i,
    {
        stream.push(body[i]);
        i = i + 1;
        assert(body@.take(i as int) =~= body@.take(i - 1).push(body@[i - 1]));
    }
    assert(body@.take(i as int) =~= body@);
    Ok(())
}

/// The text after the last `.` of `path` (all of it when there is none).
pub open spec fn extension(path: Seq<char>) -> Seq<char> {
    split_on(path, '.').last()
}

/// The `Content-Type` served for a file path, by its extension.
pub open spec fn spec_content_type(path: Seq<char>) -> Seq<char> {
    let ext = extension(path);
    if ext == "html"@ {
        "text/html; charset=utf-8"@
    } else if ext == "js"@ {
        "text/javascript; charset=utf-8"@
    } else if ext == "css"@ {
        "text/css; charset=utf-8"@
    } else if ext == "wasm"@ {
        "application/wasm"@
    } else if ext == "svg"@ {
        "image/svg+xml"@
    } else if ext == "png"@ {
        "image/png"@
    } else if ext == "json"@ {
        "application/json"@
    } else if ext == "txt"@ {
        "text/plain; charset=utf-8"@
    } else {
        "application/octet-stream"@
    }
}

/// The `Content-Type` for `path`.
pub fn content_type(path: &str) -> (r: &'static str)
    ensures
        r@ == spec_content_type(path@),
{
    let pieces = split_chars(&chars_of(path), '.');
    proof {
        lemma_split_on_nonempty(path@, '.');
    }
    let ext = &pieces[pieces.len() - 1];
    assert(ext@ == extension(path@));
    if same_chars(ext, &chars_of("html")) {
        "text/html; charset=utf-8"
    } else if same_chars(ext, &chars_of("js")) {
        "text/javascript; charset=utf-8"
    } else if same_chars(ext, &chars_of("css")) {
        "text/css; charset=utf-8"
    } else if same_chars(ext, &chars_of("wasm")) {
        "application/wasm"
    } else if same_chars(ext, &chars_of("svg")) {
        "image/svg+xml"
    } else if same_chars(ext, &chars_of("png")) {
        "image/png"
    } else if same_chars(ext, &chars_of("json")) {
        "application/json"
    } else if same_chars(ext, &chars_of("txt")) {
        "text/plain; charset=utf-8"
    } else {
        "application/octet-stream"
    }
}

/// `s` without its leading `/` characters, as `trim_start_matches('/')`.
pub open spec fn trim_leading_slashes(s: Seq<char>) -> Seq<char>
    decreases s.len(),
{
    if s.len() > 0 && s[0] == '/' {
        trim_leading_slashes(s.drop_first())
    } else {
        s
    }
}

/// The site-relative file a request target names: the part before any `?`,
/// without leading slashes, `index.html` when that is empty. `None` (403)
/// when a path segment is empty or `..`.
pub open spec fn spec_requested_file(path: Seq<char>) -> Option<Seq<char>> {
    let relative = trim_leading_slashes(split_on(path, '?')[0]);
    let requested = if relative.len() == 0 {
        "index.html"@
    } else {
        relative
    };
    if has_bad_segment(requested) {
        None
    } else {
        Some(requested)
    }
}

/// Whether a `/`-separated segment of `file` is empty or `..`.
pub open spec fn has_bad_segment(file: Seq<char>) -> bool {
    exists|k: int|
        0 <= k < split_on(file, '/').len() && (#[trigger] split_on(file, '/')[k] == ".."@
            || split_on(file, '/')[k].len() == 0)
}

/// The file a request target asks for, or `None` when it must be refused.
pub fn requested_file(path: &str) -> (r: Option<String>)
    ensures
        match spec_requested_file(path@) {
            Some(file) => r matches Some(f) && f@ == file,
            None => r is None,
        },
{
    let pieces = split_chars(&chars_of(path), '?');
    proof {
        lemma_split_on_nonempty(path@, '?');
    }
    let before_query = &pieces[0];
    let mut start: usize = 0;
    assert(before_query@.skip(0) =~= before_query@);
    while start < before_query.len() && before_query[start] == '/'
        invariant
            start <= before_query@.len(),
            trim_leading_slashes(before_query@) == trim_leading_slashes(
                before_query@.skip(start as int),
            ),
        decreases before_query.len() - start,
    {
        assert(before_query@.skip(start as int).drop_first() =~= before_query@.skip(start + 1));
        start = start + 1;
    }
    let mut requested: Vec<char> = Vec::new();
    let mut i: usize = start;
    while i < before_query.len()
        invariant
            start <= i <= before_query@.len(),
            requested@ == before_query@.subrange(start as int, i as int),
        decreases before_query.len() - i,
    {
        requested.push(before_query[i]);
        i = i + 1;
        assert(before_query@.subrange(start as int, i as int) =~= before_query@.subrange(
            start as int,
            i - 1,
        ).push(before_query@[i - 1]));
    }
    assert(requested@ =~= before_query@.skip(start as int));
    proof {
        if start < before_query@.len() {
            assert(before_query@.skip(start as int)[0] != '/');
        }
        assert(trim_leading_slashes(before_query@.skip(start as int)) == before_query@.skip(
            start as int,
        ));
        assert(before_query@ == split_on(path@, '?')[0]);
    }
    let ghost relative = requested@;
    if requested.len() == 0 {
        requested = chars_of("index.html");
    }
    assert(requested@ == if relative.len() == 0 { "index.html"@ } else { relative });
    assert(relative == trim_leading_slashes(split_on(path@, '?')[0]));
    let segments = split_chars(&requested, '/');
    let parent = chars_of("..");
    let mut k: usize = 0;
    while k < segments.len()
        invariant
            k <= segments@.len(),
            views(segments@) == split_on(requested@, '/'),
            parent@ == ".."@,
            requested@ == if relative.len() == 0 { "index.html"@ } else { relative },
            relative == trim_leading_slashes(split_on(path@, '?')[0]),
            forall|j: int|
                0 <= j < k ==> !(#[trigger] split_on(requested@, '/')[j] == ".."@ || split_on(
                    requested@,
                    '/',
                )[j].len() == 0),
        decreases segments.len() - k,
    {
        assert(split_on(requested@, '/')[k as int] == segments@[k as int]@);
        if segments[k].len() == 0 || same_chars(&segments[k], &parent) {
            assert(split_on(requested@, '/')[k as int] == ".."@ || split_on(requested@, '/')[k as int].len() == 0);
            let ghost req = if relative.len() == 0 { "index.html"@ } else { relative };
            assert(req == requested@);
            assert(0 <= k < split_on(req, '/').len() && (split_on(req, '/')[k as int] == ".."@ || split_on(req, '/')[k as int].len() == 0));
            assert(has_bad_segment(req));
            return None;
        }
        k = k + 1;
    }
    Some(string_of(&requested))
}

/// The marker the page carries when served by a static host.
pub open spec fn single_player_marker() -> Seq<char> {
    "data-multiplayer=\"0\""@
}

/// The marker that tells the page a multiplayer server is behind it.
pub open spec fn multiplayer_marker() -> Seq<char> {
    "data-multiplayer=\"1\""@
}

/// The bytes served for `file`: an HTML page that is valid UTF-8 gets its
/// single-player marker switched to the multiplayer one; anything else is
/// served as it is.
pub open spec fn spec_page_body(file: Seq<char>, bytes: Seq<u8>) -> Seq<u8> {
    let html = file.len() >= 5 && file.skip(file.len() - 5) == ".html"@;
    if html && valid_utf8(bytes) {
        encode_utf8(replace_all(decode_utf8(bytes), single_player_marker(), multiplayer_marker()))
    } else {
        bytes
    }
}

fn copy_bytes(bytes: &Vec<u8>) -> (out: Vec<u8>)
    ensures
        out@ == bytes@,
{
    let mut out: Vec<u8> = Vec::new();
    let mut i: usize = 0;
    while i < bytes.len()
        invariant
            i <= bytes@.len(),
            out@ == bytes@.take(i as int),
        decreases bytes.len() - i,
    {
        out.push(bytes[i]);
        i = i + 1;
        assert(bytes@.take(i as int) =~= bytes@.take(i - 1).push(bytes@[i - 1]));
    }
    assert(bytes@.take(i as int) =~= bytes@);
    out
}

/// The body served for `file` with contents `bytes`.
pub fn page_body(file: &str, bytes: Vec<u8>) -> (out: Vec<u8>)
    ensures
        out@ == spec_page_body(file@, bytes@),
{
    let suffix = chars_of(".html");
    proof {
        reveal_strlit(".html");
    }
    let html = ends_with(&chars_of(file), &suffix);
    if !html {
        return bytes;
    }
    let text = match string_from_utf8(copy_bytes(&bytes)) {
        Some(text) => text,
        None => {
            return bytes;
        },
    };
    let from = chars_of("data-multiplayer=\"0\"");
    proof {
        reveal_strlit("data-multiplayer=\"0\"");
    }
    let to = chars_of("data-multiplayer=\"1\"");
    let patched = replace_chars(&chars_of(text.as_str()), &from, &to);
    let patched = string_of(&patched);
    utf8_bytes(patched.as_str())
}

} // verus!
