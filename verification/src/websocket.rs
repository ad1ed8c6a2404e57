//! Minimal RFC 6455 handshake and frame codec. Extensions and fragmented
//! messages are intentionally unsupported.
//!
//! Frames are decoded from and encoded to plain bytes; the server copies them
//! between these functions and its sockets.

use vstd::prelude::*;
use vstd::utf8::*;

use crate::sha1;
pub use crate::stream::ByteStream;
use crate::text::{push_char, string_from_utf8};

use std::io::Error;

pub mod laws;

verus! {

/// `std::io::Error`, carried through the frame writers' results.
#[verifier::external_type_specification]
#[verifier::external_body]
pub struct ExIoError(Error);

// ---------------------------------------------------------------- base64

/// The base64 alphabet of RFC 4648: `A-Z`, `a-z`, `0-9`, `+`, `/`.
pub open spec fn sextet_char(v: int) -> char {
    if v < 26 {
        (65 + v) as char
    } else if v < 52 {
        (97 + (v - 26)) as char
    } else if v < 62 {
        (48 + (v - 52)) as char
    } else if v == 62 {
        '+'
    } else {
        '/'
    }
}

/// The four characters encoding one group of one to three bytes; a short
/// group is padded with `=`.
pub open spec fn base64_group(b0: int, b1: int, b2: int, n: int) -> Seq<char> {
    seq![
        sextet_char(b0 / 4),
        sextet_char((b0 % 4) * 16 + b1 / 16),
        if n > 1 { sextet_char((b1 % 16) * 4 + b2 / 64) } else { '=' },
        if n > 2 { sextet_char(b2 % 64) } else { '=' },
    ]
}

/// Standard, padded base64 of `bytes`.
pub open spec fn spec_base64(bytes: Seq<u8>) -> Seq<char>
    decreases bytes.len(),
{
    if bytes.len() == 0 {
        seq![]
    } else if bytes.len() == 1 {
        base64_group(bytes[0] as int, 0, 0, 1)
    } else if bytes.len() == 2 {
        base64_group(bytes[0] as int, bytes[1] as int, 0, 2)
    } else {
        base64_group(bytes[0] as int, bytes[1] as int, bytes[2] as int, 3) + spec_base64(
            bytes.skip(3),
        )
    }
}

fn alphabet(v: u32) -> (c: char)
    requires
        v < 64,
    ensures
        c == sextet_char(v as int),
{
    if v < 26 {
        (65 + v) as u8 as char
    } else if v < 52 {
        (97 + (v - 26)) as u8 as char
    } else if v < 62 {
        (48 + (v - 52)) as u8 as char
    } else if v == 62 {
        '+'
    } else {
        '/'
    }
}

/// Padded base64 (RFC 4648) of `input`.
pub fn base64(input: &[u8]) -> (out: String)
    ensures
        out@ == spec_base64(input@),
{
    let mut out = String::new();
    let mut i: usize = 0;
    assert(input@.skip(0) =~= input@);
    while i < input.len()
        invariant
            i <= input.len(),
            out@ + spec_base64(input@.skip(i as int)) == spec_base64(input@),
        decreases input.len() - i,
    {
        let rest: usize = input.len() - i;
        let b0: u32 = input[i] as u32;
        let b1: u32 = if rest > 1 { input[i + 1] as u32 } else { 0 };
        let b2: u32 = if rest > 2 { input[i + 2] as u32 } else { 0 };
        let n: usize = if rest > 3 { 3 } else { rest };
        let ghost tail = input@.skip(i as int);
        proof {
            assert(tail.len() == rest);
            assert(tail[0] == b0);
            if rest > 1 { assert(tail[1] == b1); }
            if rest > 2 { assert(tail[2] == b2); }
        }
        push_char(&mut out, alphabet(b0 / 4));
        push_char(&mut out, alphabet((b0 % 4) * 16 + b1 / 16));
        let c2 = if n > 1 { alphabet((b1 % 16) * 4 + b2 / 64) } else { '=' };
        push_char(&mut out, c2);
        let c3 = if n > 2 { alphabet(b2 % 64) } else { '=' };
        push_char(&mut out, c3);
        proof {
            if rest >= 3 {
                assert(tail.skip(3) =~= input@.skip(i + 3));
            }
            if rest <= 3 {
                assert(input@.skip(i + n) =~= Seq::<u8>::empty());
                if rest == 3 {
                    assert(tail.skip(3) =~= Seq::<u8>::empty());
                }
            }
        }
        i = i + n;
    }
    out
}

// ---------------------------------------------------------------- handshake

/// The fixed GUID that RFC 6455 appends to the client's key, as ASCII bytes.
pub open spec fn handshake_guid() -> Seq<u8> {
    seq![
        0x32u8, 0x35, 0x38, 0x45, 0x41, 0x46, 0x41, 0x35, 0x2D, 0x45, 0x39, 0x31, 0x34, 0x2D,
        0x34, 0x37, 0x44, 0x41, 0x2D, 0x39, 0x35, 0x43, 0x41, 0x2D, 0x43, 0x35, 0x41, 0x42,
        0x30, 0x44, 0x43, 0x38, 0x35, 0x42, 0x31, 0x31,
    ]
}

/// `Sec-WebSocket-Accept` for a client key: base64 of the SHA-1 of the key's
/// UTF-8 bytes followed by the handshake GUID.
pub open spec fn spec_accept_key(client_key: Seq<char>) -> Seq<char> {
    spec_base64(sha1::spec_sha1(encode_utf8(client_key) + handshake_guid()))
}

fn guid_bytes() -> (out: Vec<u8>)
    ensures
        out@ == handshake_guid(),
{
    let out: Vec<u8> = vec![
        0x32u8, 0x35, 0x38, 0x45, 0x41, 0x46, 0x41, 0x35, 0x2D, 0x45, 0x39, 0x31, 0x34, 0x2D,
        0x34, 0x37, 0x44, 0x41, 0x2D, 0x39, 0x35, 0x43, 0x41, 0x2D, 0x43, 0x35, 0x41, 0x42,
        0x30, 0x44, 0x43, 0x38, 0x35, 0x42, 0x31, 0x31,
    ];
    assert(out@ =~= handshake_guid());
    out
}

/// The `Sec-WebSocket-Accept` value answering `client_key`.
pub fn accept_key(client_key: &str) -> (out: String)
    ensures
        out@ == spec_accept_key(client_key@),
{
    let key = client_key.as_bytes();
    let guid = guid_bytes();
    let mut message: Vec<u8> = Vec::new();
    let mut i: usize = 0;
    while i < key.len()
        invariant
            i <= key.len(),
            message@ == key@.take(i as int),
        decreases key.len() - i,
    {
        message.push(key[i]);
        i = i + 1;
        assert(key@.take(i as int) =~= key@.take(i - 1).push(key@[i - 1]));
    }
    assert(key@.take(i as int) =~= key@);
    let mut j: usize = 0;
    while j < guid.len()
        invariant
            j <= guid.len(),
            guid@ == handshake_guid(),
            message@ == key@ + guid@.take(j as int),
        decreases guid.len() - j,
    {
        message.push(guid[j]);
        j = j + 1;
        assert(guid@.take(j as int) =~= guid@.take(j - 1).push(guid@[j - 1]));
    }
    assert(guid@.take(j as int) =~= guid@);
    let digest = sha1::digest(&message);
    base64(&digest)
}

// ---------------------------------------------------------------- frames

/// Largest payload accepted from a client.
pub const MAX_FRAME: u64 = 1048576;

/// A decoded client frame. Only the opcodes this server acts on get a variant
/// of their own; binary and pong frames are `Other`.
pub enum Frame {
    Text(String),
    Close,
    Ping(Vec<u8>),
    Other,
}

/// The mathematical content of a [`Frame`].
pub enum FrameView {
    Text(Seq<char>),
    Close,
    Ping(Seq<u8>),
    Other,
}

impl View for Frame {
    type V = FrameView;

    open spec fn view(&self) -> FrameView {
        match self {
            Frame::Text(text) => FrameView::Text(text@),
            Frame::Close => FrameView::Close,
            Frame::Ping(payload) => FrameView::Ping(payload@),
            Frame::Other => FrameView::Other,
        }
    }
}

/// Text, binary, close, ping and pong; continuation frames are not supported.
pub open spec fn is_supported_opcode(opcode: int) -> bool {
    opcode == 1 || opcode == 2 || opcode == 8 || opcode == 9 || opcode == 10
}

/// A client frame must be final (FIN set), use no reserved bits, be masked,
/// and carry a supported opcode.
pub open spec fn header_acceptable(h0: u8, h1: u8) -> bool {
    &&& h0 >= 0x80
    &&& (h0 / 16) % 8 == 0
    &&& h1 >= 0x80
    &&& is_supported_opcode((h0 % 16) as int)
}

/// Bytes of extended payload length that follow a 7-bit length code.
pub open spec fn extension_size(length_code: int) -> int {
    if length_code == 126 {
        2
    } else if length_code == 127 {
        8
    } else {
        0
    }
}

/// Unsigned big-endian value of `bytes`.
pub open spec fn be_value(bytes: Seq<u8>) -> nat
    decreases bytes.len(),
{
    if bytes.len() == 0 {
        0
    } else {
        be_value(bytes.drop_last()) * 256 + bytes.last() as nat
    }
}

/// The payload length a header announces.
pub open spec fn declared_length(length_code: int, extension: Seq<u8>) -> nat {
    if length_code >= 126 {
        be_value(extension)
    } else {
        length_code as nat
    }
}

/// Payload at most [`MAX_FRAME`] bytes; control frames at most 125; a close
/// frame never carries exactly one byte (a status code takes two).
pub open spec fn length_acceptable(opcode: int, length: nat) -> bool {
    &&& length <= MAX_FRAME
    &&& !(opcode >= 8 && length > 125)
    &&& !(opcode == 8 && length == 1)
}

/// Client payloads are XORed with the four mask bytes in turn.
pub open spec fn unmask(payload: Seq<u8>, mask: Seq<u8>) -> Seq<u8> {
    Seq::new(payload.len(), |i: int| payload[i] ^ mask[i % 4])
}

/// The frame an opcode and unmasked payload stand for; a text frame must be
/// valid UTF-8.
pub open spec fn frame_of(opcode: int, payload: Seq<u8>) -> Option<FrameView> {
    if opcode == 1 {
        if valid_utf8(payload) {
            Some(FrameView::Text(decode_utf8(payload)))
        } else {
            None
        }
    } else if opcode == 8 {
        Some(FrameView::Close)
    } else if opcode == 9 {
        Some(FrameView::Ping(payload))
    } else {
        Some(FrameView::Other)
    }
}

/// The frame at the start of `input` and the number of bytes it occupies, or
/// `None` when the input is not an acceptable client frame or ends too early.
pub open spec fn spec_read_frame(input: Seq<u8>) -> Option<(FrameView, nat)> {
    if input.len() < 2 || !header_acceptable(input[0], input[1]) {
        None
    } else {
        let opcode = (input[0] % 16) as int;
        let code = (input[1] % 128) as int;
        let ext = extension_size(code);
        if input.len() < 2 + ext {
            None
        } else {
            let length = declared_length(code, input.subrange(2, 2 + ext));
            if !length_acceptable(opcode, length) || input.len() < 6 + ext + length {
                None
            } else {
                let mask = input.subrange(2 + ext, 6 + ext);
                let payload = unmask(input.subrange(6 + ext, 6 + ext + length), mask);
                match frame_of(opcode, payload) {
                    Some(frame) => Some((frame, (6 + ext + length) as nat)),
                    None => None,
                }
            }
        }
    }
}

/// What the first two bytes of an acceptable client frame say.
pub struct FrameHeader {
    pub opcode: u8,
    pub length_code: u8,
}

/// Checks the first two bytes of a client frame.
pub fn parse_frame_header(h0: u8, h1: u8) -> (r: Option<FrameHeader>)
    ensures
        r is Some <==> header_acceptable(h0, h1),
        r matches Some(header) ==> header.opcode == h0 % 16 && header.length_code == h1 % 128,
{
    let finished = h0 & 0x80 != 0;
    let reserved = h0 & 0x70;
    let opcode = h0 & 0x0F;
    let masked = h1 & 0x80 != 0;
    let length_code = h1 & 0x7F;
    proof {
        assert(finished == (h0 >= 0x80)) by (bit_vector)
            requires finished == (h0 & 0x80 != 0);
        assert((reserved == 0) == ((h0 / 16) % 8 == 0)) by (bit_vector)
            requires reserved == h0 & 0x70;
        assert(opcode == h0 % 16) by (bit_vector)
            requires opcode == h0 & 0x0F;
        assert(masked == (h1 >= 0x80)) by (bit_vector)
            requires masked == (h1 & 0x80 != 0);
        assert(length_code == h1 % 128) by (bit_vector)
            requires length_code == h1 & 0x7F;
    }
    let supported = opcode == 1 || opcode == 2 || opcode == 8 || opcode == 9 || opcode == 10;
    if !finished || reserved != 0 || !masked || !supported {
        None
    } else {
        Some(FrameHeader { opcode, length_code })
    }
}

/// How many extended-length bytes follow the header.
pub fn extension_len(header: &FrameHeader) -> (n: usize)
    ensures
        n == extension_size(header.length_code as int),
{
    if header.length_code == 126 {
        2
    } else if header.length_code == 127 {
        8
    } else {
        0
    }
}

proof fn lemma_be_value_bound(bytes: Seq<u8>)
    ensures
        be_value(bytes) < crate::sha1::pow256(bytes.len() as int),
    decreases bytes.len(),
{
    if bytes.len() > 0 {
        lemma_be_value_bound(bytes.drop_last());
        assert(crate::sha1::pow256(bytes.len() as int) == 256 * crate::sha1::pow256(
            bytes.len() - 1,
        ));
    }
}

/// The announced payload length, when the limits allow it.
pub fn payload_length(header: &FrameHeader, extension: &[u8]) -> (r: Option<u64>)
    requires
        extension@.len() == extension_size(header.length_code as int),
        header.length_code < 128,
    ensures
        r is Some <==> length_acceptable(
            header.opcode as int,
            declared_length(header.length_code as int, extension@),
        ),
        r matches Some(n) ==> n == declared_length(header.length_code as int, extension@),
{
    let mut length: u64 = header.length_code as u64;
    if header.length_code >= 126 {
        length = 0;
        let mut i: usize = 0;
        while i < extension.len()
            invariant
                i <= extension@.len() <= 8,
                length == be_value(extension@.take(i as int)),
            decreases extension.len() - i,
        {
            proof {
                lemma_be_value_bound(extension@.take(i as int));
                reveal_with_fuel(crate::sha1::pow256, 8);
                assert(crate::sha1::pow256(7) == 0x100000000000000);
                if i < 7 {
                    assert(crate::sha1::pow256(i as int) <= crate::sha1::pow256(7)) by {
                        lemma_pow256_monotone(i as int, 7);
                    }
                }
                assert(extension@.take(i + 1).drop_last() =~= extension@.take(i as int));
            }
            length = length * 256 + extension[i] as u64;
            i = i + 1;
        }
        assert(extension@.take(i as int) =~= extension@);
    }
    let control_frame = header.opcode >= 8;
    if length > MAX_FRAME || (control_frame && length > 125) || (header.opcode == 8 && length
        == 1) {
        None
    } else {
        Some(length)
    }
}

proof fn lemma_pow256_monotone(a: int, b: int)
    requires
        0 <= a <= b,
    ensures
        crate::sha1::pow256(a) <= crate::sha1::pow256(b),
    decreases b - a,
{
    if a < b {
        lemma_pow256_monotone(a, b - 1);
        assert(crate::sha1::pow256(b) == 256 * crate::sha1::pow256(b - 1));
    }
}

/// Unmasks `payload` and turns it into the frame its opcode stands for.
pub fn decode_payload(opcode: u8, mask: &[u8], payload: Vec<u8>) -> (r: Option<Frame>)
    requires
        mask@.len() == 4,
    ensures
        match frame_of(opcode as int, unmask(payload@, mask@)) {
            Some(frame) => r matches Some(f) && f@ == frame,
            None => r is None,
        },
{
    let ghost masked = payload@;
    let mut payload = payload;
    let mut index: usize = 0;
    while index < payload.len()
        invariant
            mask@.len() == 4,
            payload@.len() == masked.len(),
            index <= payload@.len(),
            forall|i: int| 0 <= i < index ==> #[trigger] payload@[i] == masked[i] ^ mask@[i % 4],
            forall|i: int| index <= i < payload@.len() ==> #[trigger] payload@[i] == masked[i],
        decreases payload.len() - index,
    {
        let byte = payload[index] ^ mask[index % 4];
        payload.set(index, byte);
        index = index + 1;
    }
    assert(payload@ =~= unmask(masked, mask@));
    if opcode == 0x1 {
        match string_from_utf8(payload) {
            Some(text) => Some(Frame::Text(text)),
            None => None,
        }
    } else if opcode == 0x8 {
        Some(Frame::Close)
    } else if opcode == 0x9 {
        Some(Frame::Ping(payload))
    } else {
        Some(Frame::Other)
    }
}

/// Reads one client frame from `stream`.
///
/// `None` when the frame is not final, uses reserved bits, is unmasked,
/// carries an unsupported opcode or an oversized payload, is a text frame
/// that is not UTF-8, or when the stream ends first.
pub fn read_frame(stream: &mut ByteStream) -> (r: Option<Frame>)
    requires
        old(stream).wf(),
    ensures
        final(stream).wf(),
        match spec_read_frame(old(stream)@) {
            Some((frame, used)) => r matches Some(f) && f@ == frame && final(stream)@ == old(
                stream,
            )@.skip(used as int),
            None => r is None,
        },
{
    let ghost input = stream@;
    let header = stream.read_exact(2)?;
    assert(header@[0] == input[0] && header@[1] == input[1]);
    let header = parse_frame_header(header[0], header[1])?;
    let ghost ext = extension_size(header.length_code as int);
    let extended = stream.read_exact(extension_len(&header))?;
    assert(extended@ =~= input.subrange(2, 2 + ext));
    let length = payload_length(&header, &extended)?;
    let mask = stream.read_exact(4)?;
    assert(mask@ =~= input.subrange(2 + ext, 6 + ext));
    let payload = stream.read_exact(length as usize)?;
    assert(payload@ =~= input.subrange(6 + ext, 6 + ext + length));
    assert(stream@ =~= input.skip(6 + ext + length));
    decode_payload(header.opcode, &mask, payload)
}

/// Length field of a server frame: 7 bits, or 126 and 16 bits, or 127 and 64
/// bits.
pub open spec fn length_field(length: nat) -> Seq<u8> {
    if length < 126 {
        seq![length as u8]
    } else if length <= 65535 {
        seq![126u8, (length / 256) as u8, (length % 256) as u8]
    } else {
        seq![127u8] + crate::sha1::be_u64_bytes(length)
    }
}

/// A final, unmasked frame with the given opcode and payload.
pub open spec fn spec_frame(opcode: u8, payload: Seq<u8>) -> Seq<u8> {
    seq![(0x80 + opcode) as u8] + length_field(payload.len()) + payload
}

/// Appends a final, unmasked server frame to `stream`.
fn write_frame(stream: &mut Vec<u8>, opcode: u8, payload: &[u8]) -> (r: std::io::Result<()>)
    requires
        opcode < 16,
    ensures
        r is Ok,
        final(stream)@ == old(stream)@ + spec_frame(opcode, payload@),
{
    let ghost start = stream@;
    stream.push(0x80 + opcode);
    let length: usize = payload.len();
    if length < 126 {
        stream.push(length as u8);
    } else if length <= 65535 {
        stream.push(126);
        stream.push((length / 256) as u8);
        stream.push((length % 256) as u8);
    } else {
        stream.push(127);
        proof {
            assert(length <= u64::MAX);
        }
        crate::sha1::push_be_u64(stream, length as u64);
    }
    assert(stream@ =~= start + seq![(0x80 + opcode) as u8] + length_field(payload@.len()));
    let ghost head = stream@;
    let mut i: usize = 0;
    while i < payload.len()
        invariant
            i <= payload@.len(),
            stream@ == head + payload@.take(i as int),
        decreases payload.len() - i,
    {
        stream.push(payload[i]);
        i = i + 1;
        assert(payload@.take(i as int) =~= payload@.take(i - 1).push(payload@[i - 1]));
    }
    assert(payload@.take(i as int) =~= payload@);
    assert(stream@ =~= start + spec_frame(opcode, payload@));
    Ok(())
}

/// Appends a text frame carrying `text` to `stream`.
pub fn write_text(stream: &mut Vec<u8>, text: &str) -> (r: std::io::Result<()>)
    ensures
        r is Ok,
        final(stream)@ == old(stream)@ + spec_frame(1, encode_utf8(text@)),
{
    write_frame(stream, 0x1, text.as_bytes())
}

/// Appends a pong frame echoing `payload` to `stream`.
pub fn write_pong(stream: &mut Vec<u8>, payload: &[u8]) -> (r: std::io::Result<()>)
    ensures
        r is Ok,
        final(stream)@ == old(stream)@ + spec_frame(10, payload@),
{
    write_frame(stream, 0xA, payload)
}

/// Appends an empty close frame to `stream`.
pub fn write_close(stream: &mut Vec<u8>) -> (r: std::io::Result<()>)
    ensures
        r is Ok,
        final(stream)@ == old(stream)@ + spec_frame(8, Seq::empty()),
{
    let empty: Vec<u8> = Vec::new();
    write_frame(stream, 0x8, empty.as_slice())
}

} // verus!
