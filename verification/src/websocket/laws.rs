//! Laws of the codecs: base64 decodes back to its input, and a client frame,
//! masked with any mask and announced with any length encoding, reads back
//! as its payload.

use vstd::prelude::*;

use crate::sha1::pow256;
use crate::websocket::{
    base64_group, be_value, declared_length, extension_size, frame_of, header_acceptable,
    is_supported_opcode, length_acceptable, sextet_char, spec_base64, spec_read_frame, unmask,
    FrameView,
};
use vstd::utf8::valid_utf8;

verus! {

// ---------------------------------------------------------------- base64

/// The value of a base64 character; 0 for a character outside the alphabet.
pub open spec fn sextet_value(c: char) -> int {
    if 'A' <= c <= 'Z' {
        c as int - 65
    } else if 'a' <= c <= 'z' {
        c as int - 71
    } else if '0' <= c <= '9' {
        c as int + 4
    } else if c == '+' {
        62
    } else if c == '/' {
        63
    } else {
        0
    }
}

/// Standard base64 decoding of padded groups of four characters.
pub open spec fn spec_base64_decode(s: Seq<char>) -> Seq<u8>
    decreases s.len(),
{
    if s.len() < 4 {
        seq![]
    } else {
        let v0 = sextet_value(s[0]);
        let v1 = sextet_value(s[1]);
        let v2 = sextet_value(s[2]);
        let v3 = sextet_value(s[3]);
        let b0 = (v0 * 4 + v1 / 16) as u8;
        let b1 = ((v1 % 16) * 16 + v2 / 4) as u8;
        let b2 = ((v2 % 4) * 64 + v3) as u8;
        if s[2] == '=' {
            seq![b0]
        } else if s[3] == '=' {
            seq![b0, b1]
        } else {
            seq![b0, b1, b2] + spec_base64_decode(s.skip(4))
        }
    }
}

proof fn lemma_sextet(v: int)
    requires
        0 <= v < 64,
    ensures
        sextet_value(sextet_char(v)) == v,
        sextet_char(v) != '=',
{
}

proof fn lemma_group_decodes(b0: int, b1: int, b2: int)
    requires
        0 <= b0 < 256,
        0 <= b1 < 256,
        0 <= b2 < 256,
    ensures
        ({
            let v0 = b0 / 4;
            let v1 = (b0 % 4) * 16 + b1 / 16;
            let v2 = (b1 % 16) * 4 + b2 / 64;
            let v3 = b2 % 64;
            &&& 0 <= v0 < 64 && 0 <= v1 < 64 && 0 <= v2 < 64 && 0 <= v3 < 64
            &&& v0 * 4 + v1 / 16 == b0
            &&& (v1 % 16) * 16 + v2 / 4 == b1
            &&& (v2 % 4) * 64 + v3 == b2
        }),
{
    assert({
        let v0 = b0 / 4;
        let v1 = (b0 % 4) * 16 + b1 / 16;
        let v2 = (b1 % 16) * 4 + b2 / 64;
        let v3 = b2 % 64;
        &&& 0 <= v0 < 64 && 0 <= v1 < 64 && 0 <= v2 < 64 && 0 <= v3 < 64
        &&& v0 * 4 + v1 / 16 == b0
        &&& (v1 % 16) * 16 + v2 / 4 == b1
        &&& (v2 % 4) * 64 + v3 == b2
    }) by (nonlinear_arith)
        requires
            0 <= b0 < 256,
            0 <= b1 < 256,
            0 <= b2 < 256,
    ;
}

/// Base64 of `bytes`: four characters for every started group of three
/// bytes; `=` only as the `(3 - n % 3) % 3` last characters; and decoding
/// gives the bytes back.
pub proof fn lemma_base64_round_trip(bytes: Seq<u8>)
    ensures
        spec_base64(bytes).len() == 4 * ((bytes.len() + 2) / 3),
        forall|k: int|
            0 <= k < spec_base64(bytes).len() ==> (#[trigger] spec_base64(bytes)[k] == '=' <==> k
                >= spec_base64(bytes).len() - (3 - bytes.len() % 3) % 3),
        spec_base64_decode(spec_base64(bytes)) == bytes,
    decreases bytes.len(),
{
    let e = spec_base64(bytes);
    let n = bytes.len();
    if n == 0 {
        assert(spec_base64_decode(e) =~= bytes);
    } else {
        let b0 = bytes[0] as int;
        let b1 = if n > 1 { bytes[1] as int } else { 0 };
        let b2 = if n > 2 { bytes[2] as int } else { 0 };
        lemma_group_decodes(b0, b1, b2);
        lemma_sextet(b0 / 4);
        lemma_sextet((b0 % 4) * 16 + b1 / 16);
        lemma_sextet((b1 % 16) * 4 + b2 / 64);
        lemma_sextet(b2 % 64);
        let g = base64_group(b0, b1, b2, if n > 3 { 3 } else { n as int });
        if n <= 3 {
            if n == 3 {
                assert(spec_base64(bytes.skip(3)) =~= Seq::<char>::empty());
                assert(e =~= g);
            }
            assert(e == g);
            assert(e.len() == 4);
            if n == 1 {
                assert(spec_base64_decode(e) =~= bytes);
            } else if n == 2 {
                assert(spec_base64_decode(e) =~= bytes);
            } else {
                assert(e.skip(4) =~= Seq::<char>::empty());
                assert(spec_base64_decode(e.skip(4)) =~= Seq::<u8>::empty());
                assert(e[2] != '=' && e[3] != '=');
                assert(spec_base64_decode(e) == seq![b0 as u8, b1 as u8, b2 as u8] + spec_base64_decode(
                    e.skip(4),
                ));
                assert(spec_base64_decode(e) =~= bytes);
            }
        } else {
            let rest = bytes.skip(3);
            lemma_base64_round_trip(rest);
            let r = spec_base64(rest);
            assert(e == g + r);
            assert(e.skip(4) =~= r);
            assert(n % 3 == rest.len() % 3);
            assert((n + 2) / 3 == (rest.len() + 2) / 3 + 1);
            assert forall|k: int| 0 <= k < e.len() implies (#[trigger] e[k] == '=' <==> k >= e.len()
                - (3 - n % 3) % 3) by {
                if k >= 4 {
                    assert(e[k] == r[k - 4]);
                }
            }
            assert(spec_base64_decode(e) =~= bytes);
        }
    }
}

/// Base64 of bytes that come in whole groups of three, followed by more
/// bytes, is the two encodings one after the other.
pub proof fn lemma_base64_concat(a: Seq<u8>, b: Seq<u8>)
    requires
        a.len() % 3 == 0,
    ensures
        spec_base64(a + b) == spec_base64(a) + spec_base64(b),
    decreases a.len(),
{
    if a.len() == 0 {
        assert(a + b =~= b);
        assert(spec_base64(a) =~= Seq::<char>::empty());
        assert(spec_base64(a) + spec_base64(b) =~= spec_base64(b));
    } else {
        let ab = a + b;
        lemma_base64_concat(a.skip(3), b);
        assert(ab.skip(3) =~= a.skip(3) + b);
        assert(ab[0] == a[0] && ab[1] == a[1] && ab[2] == a[2]);
        assert(spec_base64(a + b) =~= spec_base64(a) + spec_base64(b));
    }
}

// ---------------------------------------------------------------- frames

/// `value` in `n` big-endian bytes.
pub open spec fn be_bytes(value: nat, n: nat) -> Seq<u8>
    decreases n,
{
    if n == 0 {
        seq![]
    } else {
        be_bytes(value / 256, (n - 1) as nat).push((value % 256) as u8)
    }
}

/// The masked length field a client sends for a payload of `length` bytes:
/// the 7-bit length (`encoding` 0), or 126 and 16 bits (1), or 127 and 64
/// bits (2), with the mask bit set.
pub open spec fn client_length_field(length: nat, encoding: int) -> Seq<u8> {
    if encoding == 0 {
        seq![(0x80 + length) as u8]
    } else if encoding == 1 {
        seq![0xFEu8] + be_bytes(length, 2)
    } else {
        seq![0xFFu8] + be_bytes(length, 8)
    }
}

/// Whether `encoding` can announce a payload of `length` bytes.
pub open spec fn encoding_fits(length: nat, encoding: int) -> bool {
    ||| encoding == 0 && length <= 125
    ||| encoding == 1 && length < 0x1_0000
    ||| encoding == 2
}

/// A final client frame carrying `payload` under `opcode`, masked with
/// `mask`.
pub open spec fn client_frame(opcode: u8, encoding: int, mask: Seq<u8>, payload: Seq<u8>) -> Seq<u8> {
    seq![(0x80 + opcode) as u8] + client_length_field(payload.len(), encoding) + mask + unmask(
        payload,
        mask,
    )
}

proof fn lemma_be_bytes(value: nat, n: nat)
    requires
        value < pow256(n as int),
    ensures
        be_bytes(value, n).len() == n,
        be_value(be_bytes(value, n)) == value,
    decreases n,
{
    if n > 0 {
        assert(value / 256 < pow256(n - 1)) by (nonlinear_arith)
            requires
                value < 256 * pow256(n - 1),
        ;
        lemma_be_bytes(value / 256, (n - 1) as nat);
        let b = be_bytes(value, n);
        assert(b.drop_last() =~= be_bytes(value / 256, (n - 1) as nat));
    }
}

/// Masking twice with the same mask gives the payload back.
proof fn lemma_unmask_twice(payload: Seq<u8>, mask: Seq<u8>)
    requires
        mask.len() == 4,
    ensures
        unmask(unmask(payload, mask), mask) == payload,
{
    assert forall|i: int| 0 <= i < payload.len() implies #[trigger] unmask(
        unmask(payload, mask),
        mask,
    )[i] == payload[i] by {
        let a = payload[i];
        let m = mask[i % 4];
        assert((a ^ m) ^ m == a) by (bit_vector);
    }
    assert(unmask(unmask(payload, mask), mask) =~= payload);
}

/// A client frame, masked with any mask and announced with any length
/// encoding that can hold its length, reads back as its payload when the
/// server accepts its opcode and length, and takes exactly its own bytes.
pub proof fn lemma_client_frame_reads_back(
    opcode: u8,
    encoding: int,
    mask: Seq<u8>,
    payload: Seq<u8>,
    rest: Seq<u8>,
)
    requires
        is_supported_opcode(opcode as int),
        mask.len() == 4,
        0 <= encoding <= 2,
        encoding_fits(payload.len(), encoding),
        length_acceptable(opcode as int, payload.len()),
    ensures
        spec_read_frame(client_frame(opcode, encoding, mask, payload) + rest) == match frame_of(
            opcode as int,
            payload,
        ) {
            Some(frame) => Some((frame, client_frame(opcode, encoding, mask, payload).len())),
            None => None,
        },
        opcode != 1 || valid_utf8(payload) ==> frame_of(opcode as int, payload) is Some,
{
    let n = payload.len();
    let frame = client_frame(opcode, encoding, mask, payload);
    let input = frame + rest;
    let field = client_length_field(n, encoding);
    let ext = if encoding == 0 {
        0int
    } else if encoding == 1 {
        2int
    } else {
        8int
    };
    assert(n <= 0x10_0000);
    if encoding == 1 {
        assert(pow256(2) == 0x1_0000) by {
            reveal_with_fuel(pow256, 3);
        }
        lemma_be_bytes(n, 2);
    } else if encoding == 2 {
        assert(pow256(8) == 0x1_0000_0000_0000_0000) by {
            reveal_with_fuel(pow256, 9);
        }
        lemma_be_bytes(n, 8);
    }
    assert(field.len() == 1 + ext);
    let h0 = (0x80 + opcode) as u8;
    let h1 = field[0];
    assert(input[0] == h0);
    assert(input[1] == h1);
    assert(h0 >= 0x80 && (h0 / 16) % 8 == 0 && h0 % 16 == opcode) by (bit_vector)
        requires
            h0 == (0x80 + opcode) as u8,
            opcode < 16,
    ;
    assert(h1 >= 0x80);
    let code = (h1 % 128) as int;
    assert(extension_size(code) == ext);
    assert(header_acceptable(input[0], input[1]));
    assert(input.subrange(2, 2 + ext) =~= field.skip(1));
    if encoding == 0 {
        assert(code == n);
    } else if encoding == 1 {
        assert(field.skip(1) =~= be_bytes(n, 2));
    } else {
        assert(field.skip(1) =~= be_bytes(n, 8));
    }
    assert(declared_length(code, input.subrange(2, 2 + ext)) == n);
    assert(frame.len() == 6 + ext + n);
    assert(input.subrange(2 + ext, 6 + ext) =~= mask);
    assert(input.subrange(6 + ext, 6 + ext + n) =~= unmask(payload, mask));
    lemma_unmask_twice(payload, mask);
}

} // verus!
