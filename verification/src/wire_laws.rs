//! How requests and responses stand on the wire, byte for byte, and what the
//! relay's handshake asks for.

use vstd::prelude::*;
use vstd::string::StringSliceAdditionalSpecFns;
use vstd::utf8::encode_utf8;

use crate::bytes::{
    le_bytes, le_value, lemma_be_bytes_len, lemma_byte_spans, lemma_le_bytes_len,
    lemma_le_round_trip,
};
use crate::http_laws::stands;
use crate::text::{holds_text, plain_lines};
use crate::wire::{field, head_encoded, header_fields, Headers, RequestView};
use crate::ws::{
    accept_value, base64_text, hashed, law_base64_length, sha1_digest, sha1_padded, upgrade_refusal,
    upgrade_text,
};

verus! {

/// Whether bytes stand at an offset with their number in the four bytes before
/// them, the least significant first.
pub open spec fn counted_at(whole: Seq<u8>, part: Seq<u8>, at: int) -> bool {
    &&& 0 <= at
    &&& at + 4 + part.len() <= whole.len()
    &&& le_value(whole.subrange(at, at + 4)) == part.len()
    &&& whole.subrange(at + 4, at + 4 + part.len()) == part
}

proof fn lemma_count(v: nat)
    requires
        v < 0x1_0000_0000,
    ensures
        le_bytes(v, 4).len() == 4,
        le_value(le_bytes(v, 4)) == v,
{
    lemma_byte_spans();
    lemma_le_bytes_len(v, 4);
    lemma_le_round_trip(v, 4);
}

proof fn lemma_field(front: Seq<u8>, part: Seq<u8>, back: Seq<u8>)
    requires
        part.len() < 0x1_0000_0000,
    ensures
        counted_at(front + field(part) + back, part, front.len() as int),
        field(part).len() == part.len() + 4,
{
    let whole = front + field(part) + back;
    let at = front.len() as int;
    lemma_count(part.len());
    assert(whole.subrange(at, at + 4) =~= le_bytes(part.len(), 4));
    assert(whole.subrange(at + 4, at + 4 + part.len()) =~= part);
}

/// A request stands on the wire as its method, its URL, the number of its headers,
/// the headers, and its body, each with its length in four bytes before it.
pub proof fn law_request_is_laid_out(r: RequestView)
    requires
        encode_utf8(r.method).len() < 0x1_0000_0000,
        encode_utf8(r.url).len() < 0x1_0000_0000,
        r.headers.len() < 0x1_0000_0000,
        r.body.len() < 0x1_0000_0000,
    ensures
        ({
            let whole = r.encoded();
            let m = encode_utf8(r.method);
            let u = encode_utf8(r.url);
            let count = m.len() + u.len() + 8;
            &&& counted_at(whole, m, 0)
            &&& counted_at(whole, u, m.len() as int + 4)
            &&& le_value(whole.subrange(count as int, count as int + 4)) == r.headers.len()
            &&& counted_at(whole, r.body, whole.len() - r.body.len() - 4)
        }),
{
    let m = encode_utf8(r.method);
    let u = encode_utf8(r.url);
    let count = le_bytes(r.headers.len(), 4);
    let lines = header_fields(r.headers, r.headers.len() as int);
    let whole = r.encoded();
    lemma_field(Seq::empty(), m, field(u) + count + lines + field(r.body));
    assert(whole =~= Seq::<u8>::empty() + field(m) + (field(u) + count + lines + field(r.body)));
    lemma_field(field(m), u, count + lines + field(r.body));
    assert(whole =~= field(m) + field(u) + (count + lines + field(r.body)));
    lemma_count(r.headers.len());
    let at = m.len() as int + u.len() as int + 8;
    assert(whole.subrange(at, at + 4) =~= count);
    let front = field(m) + field(u) + count + lines;
    lemma_field(front, r.body, Seq::empty());
    assert(whole =~= front + field(r.body) + Seq::<u8>::empty());
}

proof fn lemma_header(headers: Headers, n: int, i: int) -> (at: int)
    requires
        0 <= i < n <= headers.len(),
        encode_utf8(headers[i].0).len() < 0x1_0000_0000,
        encode_utf8(headers[i].1).len() < 0x1_0000_0000,
    ensures
        counted_at(header_fields(headers, n), encode_utf8(headers[i].0), at),
        counted_at(
            header_fields(headers, n),
            encode_utf8(headers[i].1),
            at + 4 + encode_utf8(headers[i].0).len(),
        ),
    decreases n,
{
    let all = header_fields(headers, n);
    let before = header_fields(headers, n - 1);
    let name = encode_utf8(headers[i].0);
    let value = encode_utf8(headers[i].1);
    if i < n - 1 {
        let at = lemma_header(headers, n - 1, i);
        let back = field(encode_utf8(headers[n - 1].0)) + field(encode_utf8(headers[n - 1].1));
        assert(all =~= before + back);
        lemma_kept(before, back, name, at);
        lemma_kept(before, back, value, at + 4 + name.len());
        at
    } else {
        lemma_field(before, name, field(value));
        assert(all =~= before + field(name) + field(value));
        lemma_field(before + field(name), value, Seq::empty());
        assert(all =~= (before + field(name)) + field(value) + Seq::<u8>::empty());
        before.len() as int
    }
}

proof fn lemma_kept(front: Seq<u8>, back: Seq<u8>, part: Seq<u8>, at: int)
    requires
        counted_at(front, part, at),
    ensures
        counted_at(front + back, part, at),
{
    let whole = front + back;
    assert(whole.subrange(at, at + 4) =~= front.subrange(at, at + 4));
    assert(whole.subrange(at + 4, at + 4 + part.len()) =~= front.subrange(
        at + 4,
        at + 4 + part.len(),
    ));
}

proof fn lemma_moved(front: Seq<u8>, mid: Seq<u8>, back: Seq<u8>, part: Seq<u8>, at: int)
    requires
        counted_at(mid, part, at),
    ensures
        counted_at(front + mid + back, part, front.len() + at),
{
    let whole = front + mid + back;
    let to = front.len() + at;
    assert(whole.subrange(to, to + 4) =~= mid.subrange(at, at + 4));
    assert(whole.subrange(to + 4, to + 4 + part.len()) =~= mid.subrange(
        at + 4,
        at + 4 + part.len(),
    ));
}

/// Every header stands on the wire, its name and then its value, in requests and
/// in the heads of responses; such a head begins with the status and the number
/// of headers.
pub proof fn law_headers_are_laid_out(r: RequestView, status: u16, i: int)
    requires
        0 <= i < r.headers.len() < 0x1_0000_0000,
        encode_utf8(r.headers[i].0).len() < 0x1_0000_0000,
        encode_utf8(r.headers[i].1).len() < 0x1_0000_0000,
    ensures
        ({
            let name = encode_utf8(r.headers[i].0);
            let value = encode_utf8(r.headers[i].1);
            let head = head_encoded(status, r.headers);
            &&& exists|at: int| #[trigger]
                counted_at(r.encoded(), name, at) && counted_at(
                    r.encoded(),
                    value,
                    at + 4 + name.len(),
                )
            &&& exists|at: int| #[trigger]
                counted_at(head, name, at) && counted_at(head, value, at + 4 + name.len())
            &&& le_value(head.subrange(0, 4)) == status
            &&& le_value(head.subrange(4, 8)) == r.headers.len()
        }),
{
    let name = encode_utf8(r.headers[i].0);
    let value = encode_utf8(r.headers[i].1);
    let lines = header_fields(r.headers, r.headers.len() as int);
    let at = lemma_header(r.headers, r.headers.len() as int, i);
    let count = le_bytes(r.headers.len(), 4);
    let head = head_encoded(status, r.headers);
    let front = field(encode_utf8(r.method)) + field(encode_utf8(r.url)) + count;
    assert(r.encoded() =~= front + lines + field(r.body));
    lemma_moved(front, lines, field(r.body), name, at);
    lemma_moved(front, lines, field(r.body), value, at + 4 + name.len());
    let first = le_bytes(status as nat, 4) + count;
    assert(head =~= first + lines + Seq::<u8>::empty());
    lemma_moved(first, lines, Seq::empty(), name, at);
    lemma_moved(first, lines, Seq::empty(), value, at + 4 + name.len());
    assert(counted_at(r.encoded(), name, front.len() + at));
    assert(counted_at(head, name, first.len() + at));
    lemma_count(status as nat);
    lemma_count(r.headers.len());
    assert(head.subrange(0, 4) =~= le_bytes(status as nat, 4));
    assert(head.subrange(4, 8) =~= count);
}

// ---- the relay's handshake -----------------------------------------------

/// The request for an upgrade names the path and the host first, and the key and
/// the version last.
pub proof fn law_upgrade_is_asked_for(authority: Seq<char>, path: Seq<char>, key: Seq<char>)
    ensures
        ({
            let text = upgrade_text(authority, path, key);
            let first = "GET ".spec_bytes() + encode_utf8(path)
                + " HTTP/1.1\r\nHost: ".spec_bytes() + encode_utf8(authority);
            let last = encode_utf8(key) + "\r\nSec-WebSocket-Version: 13\r\n\r\n".spec_bytes();
            &&& stands(text, first, 0)
            &&& stands(text, last, text.len() - last.len())
        }),
{
    let text = upgrade_text(authority, path, key);
    let first = "GET ".spec_bytes() + encode_utf8(path) + " HTTP/1.1\r\nHost: ".spec_bytes()
        + encode_utf8(authority);
    let mid = "\r\nUpgrade: websocket\r\nConnection: Upgrade\r\nSec-WebSocket-Key: ".spec_bytes();
    let last = encode_utf8(key) + "\r\nSec-WebSocket-Version: 13\r\n\r\n".spec_bytes();
    assert(text =~= first + mid + last);
    assert(text.subrange(0, first.len() as int) =~= first);
    assert(text.subrange(text.len() - last.len(), text.len() as int) =~= last);
}

/// A relay is accepted exactly when its first line says 101 and the value that it
/// returns is the digest of the key with the protocol's own identifier behind it.
pub proof fn law_relay_has_to_prove_itself(head: Seq<char>, key: Seq<char>)
    requires
        plain_lines(head).len() > 0,
    ensures
        ({
            let lines = plain_lines(head);
            let due = base64_text(
                sha1_digest(
                    encode_utf8(key) + "258EAFA5-E914-47DA-95CA-C5AB0DC85B11".spec_bytes(),
                ),
            );
            upgrade_refusal(head, key) is None <==> holds_text(lines[0], "101"@) && accept_value(
                lines,
                lines.len() as int,
            ) == Some(due)
        }),
{
    let message = encode_utf8(key) + "258EAFA5-E914-47DA-95CA-C5AB0DC85B11".spec_bytes();
    let digest = sha1_digest(message);
    let s = hashed(sha1_padded(message), sha1_padded(message).len() as int / 64);
    lemma_be_bytes_len(s.a as nat, 4);
    assert(digest.len() > 0);
    law_base64_length(digest, 0);
}

} // verus!
