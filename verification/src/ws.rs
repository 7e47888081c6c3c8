//! Minimal WebSocket client (RFC 6455) for the virtio-net relay.
//!
//! The net device only moves Ethernet frames; something has to carry them off
//! the host. A relay carries the frames to the native network host. The
//! emulator needs no `CAP_NET_ADMIN` and no userspace TCP/IP stack of its own.
//! It is also the only option in a browser, which means one protocol serves
//! both targets.
//!
//! Wire format matches websockproxy: **one binary WebSocket message per
//! Ethernet frame**, no envelope.
//!
//! Deliberately small: client-side only, `ws://` only (no TLS), text frames
//! ignored. It does verify the server's `Sec-WebSocket-Accept`, because the
//! alternative to checking the handshake is silently reading garbage from
//! whatever answered the port.

use vstd::prelude::*;
use vstd::string::StringSliceAdditionalSpecFns;
use vstd::utf8::encode_utf8;
use crate::bytes::{
    be_bytes, be_value, copy_range, push_all, push_be, push_zeros, read_be,
};
use crate::text::{
    chars_of, contains_text, find_char, has_prefix, holds_text, index_of, is_text_ignoring_case,
    literal, lossy_text, lowered, piece, plain_lines, prefix_len, quoted, same, split_plain_lines,
    string_of, text_of, texts, trim, trimmed,
};

verus! {

// ---- base64 --------------------------------------------------------------

/// The character for six bits.
pub open spec fn base64_char(n: int) -> char {
    if n < 26 {
        (65 + n) as u32 as char
    } else if n < 52 {
        (71 + n) as u32 as char
    } else if n < 62 {
        (n - 4) as u32 as char
    } else if n == 62 {
        '+'
    } else {
        '/'
    }
}

/// `data` from `from` on in base64: three bytes make four characters, and a
/// shorter last group is padded.
pub open spec fn base64_from(data: Seq<u8>, from: int) -> Seq<char>
    decreases data.len() + 3 - from,
{
    if !(0 <= from < data.len()) {
        Seq::empty()
    } else {
        let n = data[from] * 65536 + (if from + 1 < data.len() {
            data[from + 1] * 256
        } else {
            0
        }) + (if from + 2 < data.len() {
            data[from + 2] as int
        } else {
            0
        });
        seq![
            base64_char(n / 262144 % 64),
            base64_char(n / 4096 % 64),
            if from + 1 < data.len() {
                base64_char(n / 64 % 64)
            } else {
                '='
            },
            if from + 2 < data.len() {
                base64_char(n % 64)
            } else {
                '='
            },
        ] + base64_from(data, from + 3)
    }
}

/// `data` in base64.
pub open spec fn base64_text(data: Seq<u8>) -> Seq<char> {
    base64_from(data, 0)
}

fn sextet(n: u32) -> (c: char)
    requires
        n < 64,
    ensures
        c == base64_char(n as int),
{
    if n < 26 {
        (65 + n as u8) as char
    } else if n < 52 {
        (71 + n as u8) as char
    } else if n < 62 {
        (n as u8 - 4) as char
    } else if n == 62 {
        '+'
    } else {
        '/'
    }
}

/// `data` in base64.
pub fn base64(data: &[u8]) -> (text: String)
    ensures
        text@ == base64_text(data@),
{
    let mut out: Vec<char> = Vec::new();
    let mut from: usize = 0;
    assert(out@ + base64_from(data@, 0) =~= base64_text(data@));
    while from < data.len()
        invariant
            out@ + base64_from(data@, from as int) == base64_text(data@),
            from <= data@.len() + 2,
        decreases data@.len() - from,
    {
        let left: usize = data.len() - from;
        let b0: u32 = data[from] as u32;
        let b1: u32 = if left > 1 {
            data[from + 1] as u32
        } else {
            0
        };
        let b2: u32 = if left > 2 {
            data[from + 2] as u32
        } else {
            0
        };
        let n: u32 = b0 * 65536 + b1 * 256 + b2;
        let c0 = sextet(n / 262144 % 64);
        let c1 = sextet(n / 4096 % 64);
        let c2 = if left > 1 {
            sextet(n / 64 % 64)
        } else {
            '='
        };
        let c3 = if left > 2 {
            sextet(n % 64)
        } else {
            '='
        };
        let ghost before = out@;
        out.push(c0);
        out.push(c1);
        out.push(c2);
        out.push(c3);
        proof {
            assert(out@ =~= before + seq![c0, c1, c2, c3]);
            assert(before + base64_from(data@, from as int) =~= out@ + base64_from(
                data@,
                from + 3,
            ));
        }
        if left <= 3 {
            assert(base64_from(data@, from + 3) =~= Seq::empty());
            assert(out@ + Seq::<char>::empty() =~= out@);
            return string_of(out.as_slice());
        }
        from = from + 3;
    }
    assert(out@ + Seq::<char>::empty() =~= out@);
    string_of(out.as_slice())
}

/// Base64 text comes in groups of four characters, one for every three bytes or
/// part of them.
pub proof fn law_base64_length(data: Seq<u8>, from: int)
    requires
        0 <= from,
    ensures
        from < data.len() ==> base64_from(data, from).len() == (data.len() - from + 2) / 3 * 4,
        from >= data.len() ==> base64_from(data, from).len() == 0,
    decreases data.len() + 3 - from,
{
    if from < data.len() {
        law_base64_length(data, from + 3);
    }
}

// ---- SHA-1 ---------------------------------------------------------------

/// `x` rotated left by `n` bits.
pub open spec fn rotl(x: u32, n: u32) -> u32 {
    (x << n) | (x >> ((32 - n) as u32))
}

fn rotate(x: u32, n: u32) -> (r: u32)
    requires
        0 < n < 32,
    ensures
        r == rotl(x, n),
{
    (x << n) | (x >> (32 - n))
}

/// The sum of words modulo the word size.
pub open spec fn word_sum(a: u32, b: u32) -> u32 {
    ((a + b) % 0x1_0000_0000) as u32
}

fn sum(a: u32, b: u32) -> (r: u32)
    ensures
        r == word_sum(a, b),
{
    a.wrapping_add(b)
}

/// A message padded to whole blocks: a one bit, zeros, and its length in bits.
pub open spec fn sha1_padded(msg: Seq<u8>) -> Seq<u8> {
    msg.push(0x80) + Seq::new(((119 - msg.len() % 64) % 64) as nat, |i: int| 0u8) + be_bytes(
        (msg.len() * 8) % 0x1_0000_0000_0000_0000,
        8,
    )
}

/// Word `t` of the schedule of the block at `off`.
pub open spec fn schedule(data: Seq<u8>, off: int, t: int) -> u32
    decreases t,
{
    if t < 16 {
        be_value(data.subrange(off + t * 4, off + t * 4 + 4)) as u32
    } else {
        rotl(
            schedule(data, off, t - 3) ^ schedule(data, off, t - 8) ^ schedule(data, off, t - 14)
                ^ schedule(data, off, t - 16),
            1,
        )
    }
}

/// The round function and constant of round `t`.
pub open spec fn round_mix(t: int, b: u32, c: u32, d: u32) -> (u32, u32) {
    if t < 20 {
        ((b & c) | (!b & d), 0x5A82_7999)
    } else if t < 40 {
        (b ^ c ^ d, 0x6ED9_EBA1)
    } else if t < 60 {
        ((b & c) | (b & d) | (c & d), 0x8F1B_BCDC)
    } else {
        (b ^ c ^ d, 0xCA62_C1D6)
    }
}

/// The five words of a SHA-1 state.
pub struct ShaState {
    pub a: u32,
    pub b: u32,
    pub c: u32,
    pub d: u32,
    pub e: u32,
}

/// The state after the first `t` rounds of a block.
pub open spec fn rounds(s: ShaState, data: Seq<u8>, off: int, t: int) -> ShaState
    decreases t,
{
    if t <= 0 {
        s
    } else {
        let r = rounds(s, data, off, t - 1);
        let (f, k) = round_mix(t - 1, r.b, r.c, r.d);
        ShaState {
            a: word_sum(
                word_sum(word_sum(word_sum(rotl(r.a, 5), f), r.e), k),
                schedule(data, off, t - 1),
            ),
            b: r.a,
            c: rotl(r.b, 30),
            d: r.c,
            e: r.d,
        }
    }
}

/// The state after a block.
pub open spec fn compressed(s: ShaState, data: Seq<u8>, off: int) -> ShaState {
    let r = rounds(s, data, off, 80);
    ShaState {
        a: word_sum(s.a, r.a),
        b: word_sum(s.b, r.b),
        c: word_sum(s.c, r.c),
        d: word_sum(s.d, r.d),
        e: word_sum(s.e, r.e),
    }
}

/// The state after the first `n` blocks.
pub open spec fn hashed(data: Seq<u8>, n: int) -> ShaState
    decreases n,
{
    if n <= 0 {
        ShaState {
            a: 0x6745_2301,
            b: 0xEFCD_AB89,
            c: 0x98BA_DCFE,
            d: 0x1032_5476,
            e: 0xC3D2_E1F0,
        }
    } else {
        compressed(hashed(data, n - 1), data, (n - 1) * 64)
    }
}

/// The SHA-1 digest of a message.
pub open spec fn sha1_digest(msg: Seq<u8>) -> Seq<u8> {
    let data = sha1_padded(msg);
    let s = hashed(data, data.len() as int / 64);
    be_bytes(s.a as nat, 4) + be_bytes(s.b as nat, 4) + be_bytes(s.c as nat, 4) + be_bytes(
        s.d as nat,
        4,
    ) + be_bytes(s.e as nat, 4)
}

fn compress(s: ShaState, data: &[u8], off: usize) -> (r: ShaState)
    requires
        off + 64 <= data@.len(),
    ensures
        r == compressed(s, data@, off as int),
{
    let mut w: Vec<u32> = Vec::new();
    let mut i: usize = 0;
    while i < 16
        invariant
            i <= 16,
            off + 64 <= data.len(),
            w@.len() == i,
            forall|t: int| 0 <= t < i ==> #[trigger] w@[t] == schedule(data@, off as int, t),
        decreases 16 - i,
    {
        proof {
            crate::bytes::lemma_byte_spans();
            crate::bytes::lemma_be_value_bound(
                data@.subrange(off + i * 4, off + i * 4 + 4),
            );
        }
        w.push(read_be(data, off + i * 4, 4) as u32);
        i = i + 1;
    }
    while i < 80
        invariant
            16 <= i <= 80,
            w@.len() == i,
            forall|t: int| 0 <= t < i ==> #[trigger] w@[t] == schedule(data@, off as int, t),
        decreases 80 - i,
    {
        let x: u32 = w[i - 3] ^ w[i - 8] ^ w[i - 14] ^ w[i - 16];
        w.push(rotate(x, 1));
        i = i + 1;
    }
    let mut a: u32 = s.a;
    let mut b: u32 = s.b;
    let mut c: u32 = s.c;
    let mut d: u32 = s.d;
    let mut e: u32 = s.e;
    let mut t: usize = 0;
    while t < 80
        invariant
            t <= 80,
            w@.len() == 80,
            forall|j: int| 0 <= j < 80 ==> #[trigger] w@[j] == schedule(data@, off as int, j),
            (ShaState { a, b, c, d, e }) == rounds(s, data@, off as int, t as int),
        decreases 80 - t,
    {
        let (f, k): (u32, u32) = if t < 20 {
            ((b & c) | (!b & d), 0x5A82_7999)
        } else if t < 40 {
            (b ^ c ^ d, 0x6ED9_EBA1)
        } else if t < 60 {
            ((b & c) | (b & d) | (c & d), 0x8F1B_BCDC)
        } else {
            (b ^ c ^ d, 0xCA62_C1D6)
        };
        let tmp: u32 = sum(sum(sum(sum(rotate(a, 5), f), e), k), w[t]);
        e = d;
        d = c;
        c = rotate(b, 30);
        b = a;
        a = tmp;
        t = t + 1;
    }
    ShaState { a: sum(s.a, a), b: sum(s.b, b), c: sum(s.c, c), d: sum(s.d, d), e: sum(s.e, e) }
}

/// SHA-1, needed only for the handshake below.
pub fn sha1(msg: &[u8]) -> (digest: Vec<u8>)
    ensures
        digest@ == sha1_digest(msg@),
        digest@.len() == 20,
{
    let mut data: Vec<u8> = vstd::slice::slice_to_vec(msg);
    data.push(0x80);
    let over: usize = msg.len() % 64;
    push_zeros(&mut data, (119 - over) % 64);
    let bits: u64 = (msg.len() as u64).wrapping_mul(8);
    push_be(&mut data, bits, 8);
    proof {
        assert(data@ =~= sha1_padded(msg@));
        crate::bytes::lemma_be_bytes_len(bits as nat, 8);
        assert(data@.len() % 64 == 0);
    }
    let mut s = ShaState {
        a: 0x6745_2301,
        b: 0xEFCD_AB89,
        c: 0x98BA_DCFE,
        d: 0x1032_5476,
        e: 0xC3D2_E1F0,
    };
    let blocks: usize = data.len() / 64;
    let mut n: usize = 0;
    while n < blocks
        invariant
            n <= blocks,
            blocks * 64 == data.len(),
            s == hashed(data@, n as int),
        decreases blocks - n,
    {
        s = compress(s, data.as_slice(), n * 64);
        n = n + 1;
    }
    let mut out: Vec<u8> = Vec::new();
    push_be(&mut out, s.a as u64, 4);
    assert(out@ =~= be_bytes(s.a as nat, 4));
    push_be(&mut out, s.b as u64, 4);
    push_be(&mut out, s.c as u64, 4);
    push_be(&mut out, s.d as u64, 4);
    push_be(&mut out, s.e as u64, 4);
    proof {
        crate::bytes::lemma_be_bytes_len(s.a as nat, 4);
        crate::bytes::lemma_be_bytes_len(s.b as nat, 4);
        crate::bytes::lemma_be_bytes_len(s.c as nat, 4);
        crate::bytes::lemma_be_bytes_len(s.d as nat, 4);
        crate::bytes::lemma_be_bytes_len(s.e as nat, 4);
    }
    out
}

// ---- handshake -----------------------------------------------------------

/// The `Sec-WebSocket-Accept` value for a key.
pub open spec fn accept_text(key: Seq<char>) -> Seq<char> {
    base64_text(
        sha1_digest(encode_utf8(key) + "258EAFA5-E914-47DA-95CA-C5AB0DC85B11".spec_bytes()),
    )
}

/// The `Sec-WebSocket-Accept` value a server must return for `key`:
/// base64(SHA-1(key + magic GUID)).
pub fn accept_key(key: &str) -> (accept: String)
    ensures
        accept@ == accept_text(key@),
{
    let mut input: Vec<u8> = Vec::new();
    push_all(&mut input, key.as_bytes());
    push_all(&mut input, "258EAFA5-E914-47DA-95CA-C5AB0DC85B11".as_bytes());
    assert(input@ =~= encode_utf8(key@) + "258EAFA5-E914-47DA-95CA-C5AB0DC85B11".spec_bytes());
    let digest: Vec<u8> = sha1(input.as_slice());
    base64(digest.as_slice())
}

/// Where a relay is: the authority and path to ask for, and the address to
/// connect to.
pub struct RelayUrl {
    pub authority: String,
    pub path: String,
    pub addr: String,
}

/// The parts of a relay URL, `ws://host[:port][/path]`: authority, path and
/// address. The port is 80 unless it is given.
pub open spec fn relay_parts(url: Seq<char>) -> Result<
    (Seq<char>, Seq<char>, Seq<char>),
    Seq<char>,
> {
    if !has_prefix(url, "ws://"@) {
        if has_prefix(url, "wss://"@) {
            Err("wss:// is not supported (no TLS); use ws://: "@ + url)
        } else {
            Err("relay URL must start with ws://: "@ + url)
        }
    } else {
        let rest = url.subrange("ws://"@.len() as int, url.len() as int);
        let (authority, path) = match find_char(rest, '/', 0) {
            Some(at) => (rest.subrange(0, at), rest.subrange(at, rest.len() as int)),
            None => (rest, "/"@),
        };
        Ok(
            (
                authority,
                path,
                if find_char(authority, ':', 0) is Some {
                    authority
                } else {
                    authority + ":80"@
                },
            ),
        )
    }
}

fn with_text(what: &str, text: &[char]) -> (r: Vec<char>)
    ensures
        r@ == what@ + text@,
{
    let mut chars: Vec<char> = chars_of(what);
    chars.extend_from_slice(text);
    assert(chars@ =~= what@ + text@);
    chars
}

/// Take a relay URL apart.
pub fn parse_relay_url(url: &str) -> (r: Result<RelayUrl, String>)
    ensures
        match (r, relay_parts(url@)) {
            (Ok(a), Ok((authority, path, addr))) => a.authority@ == authority && a.path@ == path
                && a.addr@ == addr,
            (Err(a), Err(b)) => a@ == b,
            _ => false,
        },
{
    let chars: Vec<char> = chars_of(url);
    let n: usize = match prefix_len(chars.as_slice(), "ws://") {
        Some(n) => n,
        None => {
            // Being explicit beats a confusing handshake failure: TLS would
            // mean either a TLS stack or a crate dependency, and a relay is
            // usually reached over loopback or a private network anyway.
            let error: Vec<char> = if prefix_len(chars.as_slice(), "wss://").is_some() {
                with_text("wss:// is not supported (no TLS); use ws://: ", chars.as_slice())
            } else {
                with_text("relay URL must start with ws://: ", chars.as_slice())
            };
            return Err(string_of(error.as_slice()));
        },
    };
    let rest: Vec<char> = piece(chars.as_slice(), n, chars.len());
    let (authority, path): (Vec<char>, Vec<char>) = match index_of(rest.as_slice(), '/', 0) {
        Some(at) => (piece(rest.as_slice(), 0, at), piece(rest.as_slice(), at, rest.len())),
        None => {
            let all: Vec<char> = piece(rest.as_slice(), 0, rest.len());
            assert(all@ =~= rest@);
            (all, chars_of("/"))
        },
    };
    let addr: Vec<char> = if index_of(authority.as_slice(), ':', 0).is_some() {
        let all: Vec<char> = piece(authority.as_slice(), 0, authority.len());
        assert(all@ =~= authority@);
        all
    } else {
        let mut addr: Vec<char> = piece(authority.as_slice(), 0, authority.len());
        let port: Vec<char> = chars_of(":80");
        addr.extend_from_slice(port.as_slice());
        assert(addr@ =~= authority@ + ":80"@);
        addr
    };
    Ok(
        RelayUrl {
            authority: string_of(authority.as_slice()),
            path: string_of(path.as_slice()),
            addr: string_of(addr.as_slice()),
        },
    )
}

/// The request that asks for an upgrade to WebSocket.
pub open spec fn upgrade_text(authority: Seq<char>, path: Seq<char>, key: Seq<char>) -> Seq<u8> {
    "GET ".spec_bytes() + encode_utf8(path) + " HTTP/1.1\r\nHost: ".spec_bytes() + encode_utf8(
        authority,
    ) + "\r\nUpgrade: websocket\r\nConnection: Upgrade\r\nSec-WebSocket-Key: ".spec_bytes()
        + encode_utf8(key) + "\r\nSec-WebSocket-Version: 13\r\n\r\n".spec_bytes()
}

/// The request that asks for an upgrade to WebSocket.
pub fn upgrade_request(authority: &str, path: &str, key: &str) -> (out: Vec<u8>)
    ensures
        out@ == upgrade_text(authority@, path@, key@),
{
    let mut out: Vec<u8> = Vec::new();
    push_all(&mut out, "GET ".as_bytes());
    assert(out@ =~= "GET ".spec_bytes());
    push_all(&mut out, path.as_bytes());
    push_all(&mut out, " HTTP/1.1\r\nHost: ".as_bytes());
    push_all(&mut out, authority.as_bytes());
    push_all(
        &mut out,
        "\r\nUpgrade: websocket\r\nConnection: Upgrade\r\nSec-WebSocket-Key: ".as_bytes(),
    );
    push_all(&mut out, key.as_bytes());
    push_all(&mut out, "\r\nSec-WebSocket-Version: 13\r\n\r\n".as_bytes());
    out
}

/// Whether bytes end with an empty line.
pub fn ends_with_crlf_crlf(b: &[u8]) -> (r: bool)
    ensures
        r == (b@.len() >= 4 && b@.subrange(b@.len() - 4, b@.len() as int) == seq![
            13u8,
            10,
            13,
            10,
        ]),
{
    let n: usize = b.len();
    if n < 4 {
        return false;
    }
    let r = b[n - 4] == 13 && b[n - 3] == 10 && b[n - 2] == 13 && b[n - 1] == 10;
    proof {
        let tail = b@.subrange(n - 4, n as int);
        if r {
            assert(tail =~= seq![13u8, 10, 13, 10]);
        } else {
            let want = seq![13u8, 10, 13, 10];
            assert(tail[0] == b@[n - 4] && tail[1] == b@[n - 3] && tail[2] == b@[n - 2] && tail[3]
                == b@[n - 1]);
            assert(want[0] == 13 && want[1] == 10 && want[2] == 13 && want[3] == 10);
        }
    }
    r
}

/// What the head of the upgrade response needs: more bytes, or nothing more
/// because it is complete or too large.
#[derive(Debug, Clone, Copy, PartialEq, Eq, Structural)]
pub enum HandshakeRead {
    More,
    Complete,
    TooLarge,
}

/// What the head of the upgrade response needs. A head that completes with its
/// 8193rd byte is too large.
pub fn handshake_read(head: &[u8]) -> (state: HandshakeRead)
    ensures
        state is TooLarge <==> head@.len() > 8192,
        state is Complete <==> head@.len() <= 8192 && head@.len() >= 4 && head@.subrange(
            head@.len() - 4,
            head@.len() as int,
        ) == seq![13u8, 10, 13, 10],
{
    if head.len() > 8192 {
        HandshakeRead::TooLarge
    } else if ends_with_crlf_crlf(head) {
        HandshakeRead::Complete
    } else {
        HandshakeRead::More
    }
}

/// The accept value in the header line `line`, if it is that header.
pub open spec fn accept_in(line: Seq<char>) -> Option<Seq<char>> {
    match find_char(line, ':', 0) {
        None => None,
        Some(at) => if lowered(trimmed(line.subrange(0, at))) == lowered("sec-websocket-accept"@) {
            Some(trimmed(line.subrange(at + 1, line.len() as int)))
        } else {
            None
        },
    }
}

/// The accept value in the first header that has one among the lines `..n`.
pub open spec fn accept_value(lines: Seq<Seq<char>>, n: int) -> Option<Seq<char>>
    decreases n,
{
    if n <= 0 {
        None
    } else {
        match accept_value(lines, n - 1) {
            Some(value) => Some(value),
            None => accept_in(lines[n - 1]),
        }
    }
}

/// What is wrong with an upgrade response whose text is `head`, if anything is:
/// it must say 101 and return the accept value for the key that was sent.
pub open spec fn upgrade_refusal(head: Seq<char>, key: Seq<char>) -> Option<Seq<char>> {
    let lines = plain_lines(head);
    let status = if lines.len() > 0 {
        lines[0]
    } else {
        Seq::empty()
    };
    let got = match accept_value(lines, lines.len() as int) {
        Some(value) => value,
        None => Seq::empty(),
    };
    if !holds_text(status, "101"@) {
        Some("relay refused upgrade: "@ + status)
    } else if got != accept_text(key) {
        Some(
            "relay is not a WebSocket server (accept "@ + literal(got) + ", expected "@ + literal(
                accept_text(key),
            ) + ")"@,
        )
    } else {
        None
    }
}

/// Check an upgrade response against the key that was sent.
pub fn check_upgrade(head: &[u8], key: &str) -> (r: Result<(), String>)
    ensures
        match (r, upgrade_refusal(text_of(head@), key@)) {
            (Ok(_), None) => true,
            (Err(a), Some(b)) => a@ == b,
            _ => false,
        },
{
    let text: String = lossy_text(head);
    check_upgrade_text(text.as_str(), key)
}

/// Check the text of an upgrade response against the key that was sent.
pub fn check_upgrade_text(text: &str, key: &str) -> (r: Result<(), String>)
    ensures
        match (r, upgrade_refusal(text@, key@)) {
            (Ok(_), None) => true,
            (Err(a), Some(b)) => a@ == b,
            _ => false,
        },
{
    let chars: Vec<char> = chars_of(text);
    let lines: Vec<Vec<char>> = split_plain_lines(chars.as_slice());
    let ghost views = texts(lines@);
    let status: Vec<char> = if lines.len() > 0 {
        assert(views[0] == lines@[0]@);
        let all: Vec<char> = piece(lines[0].as_slice(), 0, lines[0].len());
        assert(all@ =~= views[0]);
        all
    } else {
        Vec::new()
    };
    if !contains_text(status.as_slice(), "101") {
        let error: Vec<char> = with_text("relay refused upgrade: ", status.as_slice());
        return Err(string_of(error.as_slice()));
    }
    let expect: String = accept_key(key);
    let mut got: Vec<char> = Vec::new();
    let mut found = false;
    let mut i: usize = 0;
    while i < lines.len()
        invariant
            i <= lines@.len(),
            views == texts(lines@),
            accept_value(views, i as int) == if found {
                Some(got@)
            } else {
                None
            },
            !found ==> got@ == Seq::<char>::empty(),
        decreases lines@.len() - i,
    {
        assert(views[i as int] == lines@[i as int]@);
        let line: &[char] = lines[i].as_slice();
        if !found {
            if let Some(at) = index_of(line, ':', 0) {
                let name: Vec<char> = trim(vstd::slice::slice_subrange(line, 0, at));
                if is_text_ignoring_case(name.as_slice(), "sec-websocket-accept") {
                    got = trim(vstd::slice::slice_subrange(line, at + 1, line.len()));
                    found = true;
                }
            }
        }
        i = i + 1;
    }
    let want: Vec<char> = chars_of(expect.as_str());
    if !same(got.as_slice(), want.as_slice()) {
        let shown: String = quoted(string_of(got.as_slice()).as_str());
        let mut error: Vec<char> = with_text(
            "relay is not a WebSocket server (accept ",
            chars_of(shown.as_str()).as_slice(),
        );
        error.extend_from_slice(chars_of(", expected ").as_slice());
        error.extend_from_slice(chars_of(quoted(expect.as_str()).as_str()).as_slice());
        error.extend_from_slice(chars_of(")").as_slice());
        assert(error@ =~= "relay is not a WebSocket server (accept "@ + literal(got@)
            + ", expected "@ + literal(accept_text(key@)) + ")"@);
        return Err(string_of(error.as_slice()));
    }
    Ok(())
}

/// 16 bytes for a handshake key or a frame mask, from the time. Both only need
/// to be unpredictable to a cache or proxy, not cryptographically strong: where
/// the system gives no random bytes, any varying value will do.
pub fn fallback_bytes(nanos: u64) -> (b: Vec<u8>)
    ensures
        b@ == Seq::new(
            16,
            |i: int| (nanos >> ((i % 8 * 8) as u64)) as u8 ^ (i * 31 % 256) as u8,
        ),
{
    let mut b: Vec<u8> = Vec::new();
    let mut i: u64 = 0;
    while i < 16
        invariant
            i <= 16,
            b@ == Seq::new(
                i as nat,
                |k: int| (nanos >> ((k % 8 * 8) as u64)) as u8 ^ (k * 31 % 256) as u8,
            ),
        decreases 16 - i,
    {
        let shift: u64 = i % 8 * 8;
        b.push((nanos >> shift) as u8 ^ (i * 31 % 256) as u8);
        i = i + 1;
        assert(b@ =~= Seq::new(
            i as nat,
            |k: int| (nanos >> ((k % 8 * 8) as u64)) as u8 ^ (k * 31 % 256) as u8,
        ));
    }
    b
}

// ---- frames --------------------------------------------------------------

/// `data` with each byte masked by one of four.
pub open spec fn masked(data: Seq<u8>, mask: Seq<u8>) -> Seq<u8> {
    Seq::new(data.len(), |i: int| data[i] ^ mask[i % 4])
}

fn apply_mask(data: &[u8], mask: &[u8]) -> (out: Vec<u8>)
    requires
        mask@.len() >= 4,
    ensures
        out@ == masked(data@, mask@),
{
    let mut out: Vec<u8> = Vec::new();
    let mut i: usize = 0;
    while i < data.len()
        invariant
            i <= data@.len(),
            mask@.len() >= 4,
            out@ == masked(data@.subrange(0, i as int), mask@),
        decreases data@.len() - i,
    {
        out.push(data[i] ^ mask[i % 4]);
        i = i + 1;
        assert(out@ =~= masked(data@.subrange(0, i as int), mask@));
    }
    assert(data@.subrange(0, i as int) =~= data@);
    out
}

/// The length field of a masked frame: seven bits, or a marker and 16 or 64.
pub open spec fn length_field(len: nat) -> Seq<u8> {
    if len < 126 {
        seq![(0x80 + len) as u8]
    } else if len <= 0xffff {
        seq![0xfeu8] + be_bytes(len, 2)
    } else {
        seq![0xffu8] + be_bytes(len, 8)
    }
}

/// One Ethernet frame as a masked binary message. Client-to-server payloads are
/// always masked (RFC 6455 §5.3).
pub open spec fn binary_frame(frame: Seq<u8>, mask: Seq<u8>) -> Seq<u8> {
    seq![0x82u8] + length_field(frame.len()) + mask.subrange(0, 4) + masked(frame, mask)
}

/// One Ethernet frame as a masked binary message.
pub fn encode_frame(frame: &[u8], mask: &[u8]) -> (msg: Vec<u8>)
    requires
        mask@.len() >= 4,
    ensures
        msg@ == binary_frame(frame@, mask@),
{
    let mut msg: Vec<u8> = Vec::new();
    msg.push(0x82);  // FIN | binary
    let len: usize = frame.len();
    if len < 126 {
        msg.push(0x80 + len as u8);
    } else if len <= 0xffff {
        msg.push(0xfe);
        push_be(&mut msg, len as u64, 2);
    } else {
        msg.push(0xff);
        push_be(&mut msg, len as u64, 8);
    }
    assert(msg@ =~= seq![0x82u8] + length_field(frame@.len()));
    push_all(&mut msg, vstd::slice::slice_subrange(mask, 0, 4));
    let body: Vec<u8> = apply_mask(frame, mask);
    push_all(&mut msg, body.as_slice());
    msg
}

/// First byte of the message that answers a ping.
pub const PONG: u8 = 0x8a;

/// A masked control message.
pub fn encode_control(opcode: u8, payload: &[u8], mask: &[u8]) -> (msg: Vec<u8>)
    requires
        mask@.len() >= 4,
    ensures
        msg@ == seq![
            opcode,
            (0x80 + if payload@.len() < 125 {
                payload@.len() as int
            } else {
                125
            }) as u8,
        ] + mask@.subrange(0, 4) + masked(payload@, mask@),
{
    let mut msg: Vec<u8> = Vec::new();
    msg.push(opcode);
    let len: u8 = if payload.len() < 125 {
        payload.len() as u8
    } else {
        125
    };
    msg.push(0x80 + len);
    assert(msg@ =~= seq![opcode, (0x80 + len) as u8]);
    push_all(&mut msg, vstd::slice::slice_subrange(mask, 0, 4));
    let body: Vec<u8> = apply_mask(payload, mask);
    push_all(&mut msg, body.as_slice());
    msg
}

/// One WebSocket frame: whether it ends its message, its opcode, its payload
/// and where it ends.
#[verifier::ext_equal]
pub struct WsFrame {
    pub fin: bool,
    pub opcode: u8,
    pub payload: Seq<u8>,
    pub end: int,
}

/// The payload length of the frame at the start of `b` and where the length
/// field ends, once it has arrived.
pub open spec fn payload_len(b: Seq<u8>) -> Option<(nat, int)> {
    let len7 = b[1] % 128;
    if b.len() < 2 {
        None
    } else if len7 == 126 {
        if b.len() >= 4 {
            Some((be_value(b.subrange(2, 4)), 4))
        } else {
            None
        }
    } else if len7 == 127 {
        if b.len() >= 10 {
            Some((be_value(b.subrange(2, 10)), 10))
        } else {
            None
        }
    } else {
        Some((len7 as nat, 2))
    }
}

/// The frame at the start of `b`, once it has fully arrived. A conforming
/// server never masks, but the bit is honoured rather than mis-parse the stream
/// if one does.
pub open spec fn frame_at(b: Seq<u8>) -> Option<WsFrame> {
    match payload_len(b) {
        None => None,
        Some((len, at)) => {
            let has_mask = b[1] >= 128;
            let off = if has_mask {
                at + 4
            } else {
                at
            };
            if b.len() < off + len {
                None
            } else {
                let raw = b.subrange(off, off + len as int);
                Some(
                    WsFrame {
                        fin: b[0] >= 128,
                        opcode: b[0] % 16,
                        payload: if has_mask {
                            masked(raw, b.subrange(at, at + 4))
                        } else {
                            raw
                        },
                        end: off + len,
                    },
                )
            }
        },
    }
}

/// A relay connection: bytes that do not form a whole frame yet, and the
/// payload of a message whose end has not arrived yet.
pub struct RelayState {
    pending: Vec<u8>,
    partial: Vec<u8>,
    closed: bool,
}

/// The state of a [`RelayState`].
#[verifier::ext_equal]
pub struct RelayView {
    pub pending: Seq<u8>,
    pub partial: Seq<u8>,
    pub closed: bool,
}

impl View for RelayState {
    type V = RelayView;

    closed spec fn view(&self) -> RelayView {
        RelayView { pending: self.pending@, partial: self.partial@, closed: self.closed }
    }
}

/// What arrived on a relay connection: whole messages, and pings to answer.
#[verifier::ext_equal]
pub struct Arrived {
    pub relay: RelayView,
    pub messages: Seq<Seq<u8>>,
    pub pings: Seq<Seq<u8>>,
}

/// What one frame does: binary frames and their continuations make messages, a
/// close ends the connection, a ping wants an answer, and text and pongs are
/// not our protocol.
pub open spec fn frame_taken(a: Arrived, frame: WsFrame) -> Arrived {
    let relay = RelayView {
        pending: a.relay.pending.subrange(frame.end, a.relay.pending.len() as int),
        ..a.relay
    };
    let whole = a.relay.partial + frame.payload;
    if frame.opcode == 0 || frame.opcode == 2 {
        if frame.fin {
            Arrived {
                relay: RelayView { partial: Seq::empty(), ..relay },
                messages: a.messages.push(whole),
                ..a
            }
        } else {
            Arrived { relay: RelayView { partial: whole, ..relay }, ..a }
        }
    } else if frame.opcode == 8 {
        Arrived { relay: RelayView { closed: true, ..relay }, ..a }
    } else if frame.opcode == 9 {
        Arrived { relay, pings: a.pings.push(frame.payload), ..a }
    } else {
        Arrived { relay, ..a }
    }
}

/// Everything that whole frames do, up to a close.
pub open spec fn frames_taken(a: Arrived) -> Arrived
    decreases a.relay.pending.len(),
{
    match frame_at(a.relay.pending) {
        Some(frame) if 0 < frame.end <= a.relay.pending.len() => {
            let next = frame_taken(a, frame);
            if frame.opcode == 8 {
                next
            } else {
                frames_taken(next)
            }
        },
        _ => a,
    }
}

struct ParsedFrame {
    fin: bool,
    opcode: u8,
    payload: Vec<u8>,
    end: usize,
}

fn parse_frame(b: &[u8]) -> (frame: Option<ParsedFrame>)
    ensures
        match (frame, frame_at(b@)) {
            (Some(f), Some(w)) => f.fin == w.fin && f.opcode == w.opcode && f.payload@ == w.payload
                && f.end == w.end && 0 < f.end <= b@.len(),
            (None, None) => true,
            _ => false,
        },
{
    if b.len() < 2 {
        return None;
    }
    proof {
        crate::bytes::lemma_byte_spans();
    }
    let len7: u8 = b[1] % 128;
    let (len, at): (u64, usize) = if len7 == 126 {
        if b.len() < 4 {
            return None;  // length not fully arrived
        }
        (read_be(b, 2, 2), 4)
    } else if len7 == 127 {
        if b.len() < 10 {
            return None;
        }
        (read_be(b, 2, 8), 10)
    } else {
        (len7 as u64, 2)
    };
    let has_mask = b[1] >= 128;
    let off: usize = if has_mask {
        at + 4
    } else {
        at
    };
    if b.len() < off || ((b.len() - off) as u64) < len {
        return None;
    }
    let end: usize = off + len as usize;
    let raw: &[u8] = vstd::slice::slice_subrange(b, off, end);
    let payload: Vec<u8> = if has_mask {
        apply_mask(raw, vstd::slice::slice_subrange(b, at, at + 4))
    } else {
        vstd::slice::slice_to_vec(raw)
    };
    Some(ParsedFrame { fin: b[0] >= 128, opcode: b[0] % 16, payload, end })
}

/// The payloads of several messages.
pub open spec fn payloads(v: Seq<Vec<u8>>) -> Seq<Seq<u8>> {
    v.map_values(|m: Vec<u8>| m@)
}

impl RelayState {
    /// A connection on which nothing has arrived.
    pub fn new() -> (relay: RelayState)
        ensures
            relay@ == (RelayView { pending: Seq::empty(), partial: Seq::empty(), closed: false }),
    {
        RelayState { pending: Vec::new(), partial: Vec::new(), closed: false }
    }

    /// Whether the connection is closed.
    pub fn is_closed(&self) -> (closed: bool)
        ensures
            closed == self@.closed,
    {
        self.closed
    }

    /// Note that the connection is closed.
    pub fn close(&mut self)
        ensures
            final(self)@ == (RelayView { closed: true, ..old(self)@ }),
    {
        self.closed = true;
    }

    /// Bytes arrived.
    pub fn feed(&mut self, bytes: &[u8])
        ensures
            final(self)@ == (RelayView {
                pending: old(self)@.pending + bytes@,
                ..old(self)@
            }),
    {
        push_all(&mut self.pending, bytes);
    }

    /// Parse as many whole WebSocket frames out of the bytes that arrived as
    /// possible: the messages they make, and the pings to answer.
    pub fn drain_frames(&mut self) -> (r: (Vec<Vec<u8>>, Vec<Vec<u8>>))
        ensures
            (Arrived {
                relay: final(self)@,
                messages: payloads(r.0@),
                pings: payloads(r.1@),
            }) == frames_taken(
                Arrived { relay: old(self)@, messages: Seq::empty(), pings: Seq::empty() },
            ),
    {
        let mut out: Vec<Vec<u8>> = Vec::new();
        let mut pings: Vec<Vec<u8>> = Vec::new();
        let ghost goal = frames_taken(
            Arrived { relay: self@, messages: Seq::empty(), pings: Seq::empty() },
        );
        assert(payloads(out@) =~= Seq::empty());
        assert(payloads(pings@) =~= Seq::empty());
        loop
            invariant_except_break
                frames_taken(
                    Arrived {
                        relay: self@,
                        messages: payloads(out@),
                        pings: payloads(pings@),
                    },
                ) == goal,
            ensures
                goal == (Arrived {
                    relay: self@,
                    messages: payloads(out@),
                    pings: payloads(pings@),
                }),
            decreases self@.pending.len(),
        {
            let ghost before = Arrived {
                relay: self@,
                messages: payloads(out@),
                pings: payloads(pings@),
            };
            let frame = match parse_frame(self.pending.as_slice()) {
                Some(frame) => frame,
                None => {
                    break ;
                },
            };
            let ghost taken = frame_at(self@.pending)->0;
            let rest: Vec<u8> = copy_range(self.pending.as_slice(), frame.end, self.pending.len());
            self.pending = rest;
            if frame.opcode == 0 || frame.opcode == 2 {
                push_all(&mut self.partial, frame.payload.as_slice());
                if frame.fin {
                    let mut message: Vec<u8> = Vec::new();
                    core::mem::swap(&mut message, &mut self.partial);
                    out.push(message);
                    assert(payloads(out@) =~= before.messages.push(message@));
                }
            } else if frame.opcode == 8 {
                self.closed = true;
                break ;
            } else if frame.opcode == 9 {
                pings.push(frame.payload);
                assert(payloads(pings@) =~= before.pings.push(taken.payload));
            }
        }
        (out, pings)
    }
}

// ---- laws ----------------------------------------------------------------

/// Masking twice with the same mask gives the data back.
pub proof fn law_mask_is_its_own_inverse(data: Seq<u8>, mask: Seq<u8>)
    ensures
        masked(masked(data, mask), mask) == data,
{
    assert forall|i: int| 0 <= i < data.len() implies #[trigger] masked(
        masked(data, mask),
        mask,
    )[i] == data[i] by {
        let x = data[i];
        let m = mask[i % 4];
        assert((x ^ m) ^ m == x) by (bit_vector);
    }
    assert(masked(masked(data, mask), mask) =~= data);
}

/// A frame that is sent is read back: the bytes of a binary message hold one
/// whole frame with that payload and nothing more.
pub proof fn law_frame_round_trips(frame: Seq<u8>, mask: Seq<u8>)
    requires
        mask.len() >= 4,
        frame.len() <= u64::MAX,
    ensures
        frame_at(binary_frame(frame, mask)) == Some(
            WsFrame {
                fin: true,
                opcode: 2,
                payload: frame,
                end: binary_frame(frame, mask).len() as int,
            },
        ),
{
    let b = binary_frame(frame, mask);
    let len = frame.len();
    crate::bytes::lemma_be_bytes_len(len, 2);
    crate::bytes::lemma_be_bytes_len(len, 8);
    crate::bytes::lemma_byte_spans();
    let at = 1 + length_field(len).len();
    assert(b[0] == 0x82);
    if len < 126 {
        assert(b[1] == 0x80 + len);
    } else if len <= 0xffff {
        assert(b[1] == 0xfe);
        assert(b.subrange(2, 4) =~= be_bytes(len, 2));
        crate::bytes::lemma_be_round_trip(len, 2);
    } else {
        assert(b[1] == 0xff);
        assert(b.subrange(2, 10) =~= be_bytes(len, 8));
        crate::bytes::lemma_be_round_trip(len, 8);
    }
    assert(payload_len(b) == Some((len, at as int)));
    let off = at + 4;
    let m = b.subrange(at as int, off as int);
    assert(m =~= mask.subrange(0, 4));
    assert(b.subrange(off as int, off + len as int) =~= masked(frame, mask));
    assert(masked(masked(frame, mask), m) =~= masked(masked(frame, mask), mask));
    law_mask_is_its_own_inverse(frame, mask);
}

/// One message per Ethernet frame: a frame that arrives whole on an idle
/// connection makes exactly that one message and leaves nothing behind.
pub proof fn law_one_message_per_frame(frame: Seq<u8>, mask: Seq<u8>)
    requires
        mask.len() >= 4,
        frame.len() <= u64::MAX,
    ensures
        ({
            let idle = RelayView {
                pending: Seq::empty(),
                partial: Seq::empty(),
                closed: false,
            };
            let a = Arrived {
                relay: RelayView { pending: binary_frame(frame, mask), ..idle },
                messages: Seq::empty(),
                pings: Seq::empty(),
            };
            frames_taken(a) == (Arrived { relay: idle, messages: seq![frame], ..a })
        }),
{
    let idle = RelayView { pending: Seq::empty(), partial: Seq::empty(), closed: false };
    let b = binary_frame(frame, mask);
    let a = Arrived {
        relay: RelayView { pending: b, ..idle },
        messages: Seq::empty(),
        pings: Seq::empty(),
    };
    law_frame_round_trips(frame, mask);
    let w = frame_at(b)->0;
    let next = frame_taken(a, w);
    assert(next.relay.pending =~= Seq::empty());
    assert(idle.partial + frame =~= frame);
    assert(next.messages =~= seq![frame]);
    assert(frame_at(next.relay.pending) is None);
    assert(frames_taken(next) == next);
}

} // verus!
