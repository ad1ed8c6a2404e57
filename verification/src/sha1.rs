//! SHA-1 (FIPS 180-4), only used to answer the WebSocket handshake.

use vstd::prelude::*;

verus! {

/// The five-word chaining state `(h0, h1, h2, h3, h4)`.
pub type Sha1State = (u32, u32, u32, u32, u32);

pub open spec fn initial_state() -> Sha1State {
    (0x67452301u32, 0xEFCDAB89u32, 0x98BADCFEu32, 0x10325476u32, 0xC3D2E1F0u32)
}

/// Addition modulo 2^32.
pub open spec fn add32(a: u32, b: u32) -> u32 {
    ((a + b) % 0x1_0000_0000) as u32
}

pub open spec fn rotl(x: u32, n: u32) -> u32 {
    (x << n) | (x >> ((32 - n) as u32))
}

/// The round function `f_t` of FIPS 180-4, section 4.1.1.
pub open spec fn round_fn(t: int, b: u32, c: u32, d: u32) -> u32 {
    if t < 20 {
        (b & c) | (!b & d)
    } else if t < 40 {
        b ^ c ^ d
    } else if t < 60 {
        (b & c) | (b & d) | (c & d)
    } else {
        b ^ c ^ d
    }
}

/// The round constant `K_t`.
pub open spec fn round_constant(t: int) -> u32 {
    if t < 20 {
        0x5A827999u32
    } else if t < 40 {
        0x6ED9EBA1u32
    } else if t < 60 {
        0x8F1BBCDCu32
    } else {
        0xCA62C1D6u32
    }
}

/// Big-endian 32-bit word starting at `at`.
pub open spec fn be_word(bytes: Seq<u8>, at: int) -> u32 {
    (bytes[at] as int * 0x1000000 + bytes[at + 1] as int * 0x10000 + bytes[at + 2] as int * 0x100
        + bytes[at + 3] as int) as u32
}

/// Message schedule word `W_t` of a 64-byte block.
pub open spec fn schedule(block: Seq<u8>, t: nat) -> u32
    decreases t,
{
    if t < 16 {
        be_word(block, 4 * t as int)
    } else {
        rotl(
            schedule(block, (t - 3) as nat) ^ schedule(block, (t - 8) as nat) ^ schedule(
                block,
                (t - 14) as nat,
            ) ^ schedule(block, (t - 16) as nat),
            1,
        )
    }
}

/// One round: `T = ROTL5(a) + f_t(b,c,d) + e + K_t + W_t`, then the shift of
/// the working variables.
pub open spec fn round(v: Sha1State, t: int, w: u32) -> Sha1State {
    let temp = add32(add32(add32(add32(rotl(v.0, 5), round_fn(t, v.1, v.2, v.3)), v.4), round_constant(t)), w);
    (temp, v.0, rotl(v.1, 30), v.2, v.3)
}

/// The working variables after the first `t` rounds over `block`.
pub open spec fn rounds(block: Seq<u8>, h: Sha1State, t: nat) -> Sha1State
    decreases t,
{
    if t == 0 {
        h
    } else {
        round(rounds(block, h, (t - 1) as nat), t - 1, schedule(block, (t - 1) as nat))
    }
}

/// The compression function on one 64-byte block.
pub open spec fn compress(h: Sha1State, block: Seq<u8>) -> Sha1State {
    let v = rounds(block, h, 80);
    (add32(h.0, v.0), add32(h.1, v.1), add32(h.2, v.2), add32(h.3, v.3), add32(h.4, v.4))
}

/// Runs the compression function over every whole 64-byte block of `padded`.
pub open spec fn process(h: Sha1State, padded: Seq<u8>) -> Sha1State
    decreases padded.len(),
{
    if padded.len() < 64 {
        h
    } else {
        process(compress(h, padded.take(64)), padded.skip(64))
    }
}

/// Number of zero bytes between the `0x80` marker and the length field.
pub open spec fn pad_zeros(len: nat) -> nat {
    ((55 - (len % 64) as int + 64) % 64) as nat
}

/// Big-endian bytes of a 64-bit value.
pub open spec fn be_u64_bytes(v: nat) -> Seq<u8> {
    Seq::new(8, |i: int| ((v / pow256(7 - i)) % 256) as u8)
}

pub open spec fn pow256(e: int) -> nat
    decreases e,
{
    if e <= 0 {
        1
    } else {
        256 * pow256(e - 1)
    }
}

/// FIPS 180-4 padding: a `1` bit, zeros, then the bit length as 64 bits.
pub open spec fn pad(message: Seq<u8>) -> Seq<u8> {
    message + seq![0x80u8] + Seq::new(pad_zeros(message.len()), |i: int| 0u8) + be_u64_bytes(
        ((message.len() * 8) % 0x1_0000_0000_0000_0000) as nat,
    )
}

pub open spec fn word_bytes(w: u32) -> Seq<u8> {
    seq![(w / 0x1000000) as u8, ((w / 0x10000) % 256) as u8, ((w / 0x100) % 256) as u8, (w % 256) as u8]
}

/// The 20-byte SHA-1 digest of `message`.
pub open spec fn spec_sha1(message: Seq<u8>) -> Seq<u8> {
    let h = process(initial_state(), pad(message));
    word_bytes(h.0) + word_bytes(h.1) + word_bytes(h.2) + word_bytes(h.3) + word_bytes(h.4)
}

fn rotl_exec(x: u32, n: u32) -> (r: u32)
    requires
        0 < n < 32,
    ensures
        r == rotl(x, n),
{
    (x << n) | (x >> (32 - n))
}

fn add_mod(a: u32, b: u32) -> (r: u32)
    ensures
        r == add32(a, b),
{
    a.wrapping_add(b)
}

fn padded_message(message: &[u8]) -> (out: Vec<u8>)
    ensures
        out@ == pad(message@),
        out@.len() % 64 == 0,
{
    let mut out: Vec<u8> = Vec::new();
    let mut i: usize = 0;
    while i < message.len()
        invariant
            i <= message.len(),
            out@ == message@.take(i as int),
        decreases message.len() - i,
    {
        out.push(message[i]);
        i = i + 1;
        assert(message@.take(i as int) =~= message@.take(i - 1).push(message@[i - 1]));
    }
    assert(message@.take(i as int) =~= message@);
    out.push(0x80);
    let zeros: usize = (55 + 64 - message.len() % 64) % 64;
    assert(zeros == pad_zeros(message@.len()));
    let mut z: usize = 0;
    while z < zeros
        invariant
            z <= zeros,
            out@ == message@ + seq![0x80u8] + Seq::new(z as nat, |k: int| 0u8),
        decreases zeros - z,
    {
        out.push(0);
        z = z + 1;
        assert(Seq::new(z as nat, |k: int| 0u8) =~= Seq::new((z - 1) as nat, |k: int| 0u8).push(0u8));
    }
    let bits: u64 = (message.len() as u64).wrapping_mul(8);
    assert(bits == (message@.len() * 8) % 0x1_0000_0000_0000_0000);
    push_be_u64(&mut out, bits);
    assert(out@ =~= pad(message@));
    proof {
        lemma_padded_length(message@.len());
    }
    out
}

proof fn lemma_padded_length(n: nat)
    ensures
        (n + 1 + pad_zeros(n) + 8) % 64 == 0,
{
}

pub fn push_be_u64(out: &mut Vec<u8>, bits: u64)
    ensures
        final(out)@ == old(out)@ + be_u64_bytes(bits as nat),
{
    out.push((bits / 0x100000000000000) as u8);
    out.push(((bits / 0x1000000000000) % 256) as u8);
    out.push(((bits / 0x10000000000) % 256) as u8);
    out.push(((bits / 0x100000000) % 256) as u8);
    out.push(((bits / 0x1000000) % 256) as u8);
    out.push(((bits / 0x10000) % 256) as u8);
    out.push(((bits / 0x100) % 256) as u8);
    out.push((bits % 256) as u8);
    proof {
        reveal_with_fuel(pow256, 8);
        assert(pow256(0) == 1);
        assert(pow256(1) == 0x100);
        assert(pow256(2) == 0x10000);
        assert(pow256(3) == 0x1000000);
        assert(pow256(4) == 0x100000000);
        assert(pow256(5) == 0x10000000000);
        assert(pow256(6) == 0x1000000000000);
        assert(pow256(7) == 0x100000000000000);
        let v = bits as nat;
        assert(v / 0x100000000000000 < 256);
        assert(be_u64_bytes(v)[0] == (v / 0x100000000000000) as u8);
        assert(be_u64_bytes(v)[1] == ((v / 0x1000000000000) % 256) as u8);
        assert(be_u64_bytes(v)[2] == ((v / 0x10000000000) % 256) as u8);
        assert(be_u64_bytes(v)[3] == ((v / 0x100000000) % 256) as u8);
        assert(be_u64_bytes(v)[4] == ((v / 0x1000000) % 256) as u8);
        assert(be_u64_bytes(v)[5] == ((v / 0x10000) % 256) as u8);
        assert(be_u64_bytes(v)[6] == ((v / 0x100) % 256) as u8);
        assert(v / 1 == v);
        assert(be_u64_bytes(v)[7] == (v % 256) as u8);
        assert(final(out)@.len() == old(out)@.len() + 8);
        assert(forall|i: int| 0 <= i < 8 ==> final(out)@[old(out)@.len() + i] == #[trigger] be_u64_bytes(v)[i]);
        assert(final(out)@ =~= old(out)@ + be_u64_bytes(v));
    }
}

/// Compresses the 64-byte block at `start` of `padded` into `h`.
fn compress_block(h: (u32, u32, u32, u32, u32), padded: &Vec<u8>, start: usize) -> (out: (
    u32,
    u32,
    u32,
    u32,
    u32,
))
    requires
        start + 64 <= padded@.len(),
    ensures
        out == compress(h, padded@.subrange(start as int, start + 64)),
{
    let ghost block = padded@.subrange(start as int, start + 64);
    let mut w: Vec<u32> = Vec::new();
    let mut t: usize = 0;
    while t < 80
        invariant
            t <= 80,
            start + 64 <= padded.len(),
            block == padded@.subrange(start as int, start + 64),
            w@.len() == t,
            forall|j: int| 0 <= j < t ==> #[trigger] w@[j] == schedule(block, j as nat),
        decreases 80 - t,
    {
        let word: u32 = if t < 16 {
            let at: usize = start + 4 * t;
            assert(at + 3 < padded@.len());
            assert(block[4 * t] == padded@[at as int]);
            assert(block[4 * t + 1] == padded@[at + 1]);
            assert(block[4 * t + 2] == padded@[at + 2]);
            assert(block[4 * t + 3] == padded@[at + 3]);
            padded[at] as u32 * 0x1000000 + padded[at + 1] as u32 * 0x10000 + padded[at + 2] as u32
                * 0x100 + padded[at + 3] as u32
        } else {
            rotl_exec(w[t - 3] ^ w[t - 8] ^ w[t - 14] ^ w[t - 16], 1)
        };
        assert(word == schedule(block, t as nat));
        w.push(word);
        t = t + 1;
    }
    let (mut a, mut b, mut c, mut d, mut e): (u32, u32, u32, u32, u32) = h;
    let mut t: usize = 0;
    while t < 80
        invariant
            t <= 80,
            w@.len() == 80,
            forall|j: int| 0 <= j < 80 ==> #[trigger] w@[j] == schedule(block, j as nat),
            (a, b, c, d, e) == rounds(block, h, t as nat),
        decreases 80 - t,
    {
        let f: u32 = if t < 20 {
            (b & c) | (!b & d)
        } else if t < 40 {
            b ^ c ^ d
        } else if t < 60 {
            (b & c) | (b & d) | (c & d)
        } else {
            b ^ c ^ d
        };
        let k: u32 = if t < 20 {
            0x5A827999
        } else if t < 40 {
            0x6ED9EBA1
        } else if t < 60 {
            0x8F1BBCDC
        } else {
            0xCA62C1D6
        };
        let temp: u32 = add_mod(add_mod(add_mod(add_mod(rotl_exec(a, 5), f), e), k), w[t]);
        e = d;
        d = c;
        c = rotl_exec(b, 30);
        b = a;
        a = temp;
        t = t + 1;
    }
    (add_mod(h.0, a), add_mod(h.1, b), add_mod(h.2, c), add_mod(h.3, d), add_mod(h.4, e))
}

fn push_word(out: &mut Vec<u8>, w: u32)
    ensures
        final(out)@ == old(out)@ + word_bytes(w),
{
    out.push((w / 0x1000000) as u8);
    out.push(((w / 0x10000) % 256) as u8);
    out.push(((w / 0x100) % 256) as u8);
    out.push((w % 256) as u8);
    assert(final(out)@ =~= old(out)@ + word_bytes(w));
}

/// The SHA-1 digest of `message`.
#[verifier::rlimit(90)]
pub fn digest(message: &[u8]) -> (out: Vec<u8>)
    ensures
        out@ == spec_sha1(message@),
        out@.len() == 20,
{
    let padded = padded_message(message);
    let mut h: (u32, u32, u32, u32, u32) = (
        0x67452301,
        0xEFCDAB89,
        0x98BADCFE,
        0x10325476,
        0xC3D2E1F0,
    );
    let mut start: usize = 0;
    assert(padded@.skip(0) =~= padded@);
    while start < padded.len()
        invariant
            start <= padded@.len(),
            start % 64 == 0,
            padded@.len() % 64 == 0,
            process(h, padded@.skip(start as int)) == process(initial_state(), pad(message@)),
            padded@ == pad(message@),
        decreases padded.len() - start,
    {
        let ghost rest = padded@.skip(start as int);
        assert(rest.take(64) =~= padded@.subrange(start as int, start + 64));
        assert(rest.skip(64) =~= padded@.skip(start + 64));
        h = compress_block(h, &padded, start);
        start = start + 64;
    }
    assert(padded@.skip(start as int).len() == 0);
    let mut out: Vec<u8> = Vec::new();
    push_word(&mut out, h.0);
    push_word(&mut out, h.1);
    push_word(&mut out, h.2);
    push_word(&mut out, h.3);
    push_word(&mut out, h.4);
    assert(out@ =~= spec_sha1(message@));
    out
}

} // verus!
