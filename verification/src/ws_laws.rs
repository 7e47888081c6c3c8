//! What holds of the relay's WebSocket: what the server sends is read back
//! message by message, however it is cut, and what is sent is masked.

use vstd::prelude::*;
use crate::text::find_char;
use crate::ws::{
    base64_char, base64_text, binary_frame, frame_at, frame_taken, frames_taken, payload_len,
    relay_parts, Arrived, RelayView,
};

verus! {

/// The length of an unmasked frame: one byte below 126, 126 and two bytes up to
/// 65535, else 127 and eight, the most significant first.
pub open spec fn server_length(len: nat) -> Seq<u8> {
    if len < 126 {
        seq![len as u8]
    } else if len <= 65535 {
        seq![126u8, (len / 256) as u8, (len % 256) as u8]
    } else {
        seq![
            127u8,
            (len / 0x100_0000_0000_0000 % 256) as u8,
            (len / 0x1_0000_0000_0000 % 256) as u8,
            (len / 0x100_0000_0000 % 256) as u8,
            (len / 0x1_0000_0000 % 256) as u8,
            (len / 0x100_0000 % 256) as u8,
            (len / 0x1_0000 % 256) as u8,
            (len / 0x100 % 256) as u8,
            (len % 256) as u8,
        ]
    }
}

/// A frame as a server sends it: without a mask.
pub open spec fn server_frame(first: u8, payload: Seq<u8>) -> Seq<u8> {
    seq![first] + server_length(payload.len()) + payload
}

proof fn lemma_two(s: Seq<u8>)
    requires
        s.len() == 2,
    ensures
        crate::bytes::be_value(s) == s[0] * 256 + s[1],
{
    reveal_with_fuel(crate::bytes::be_value, 3);
}

proof fn lemma_eight(s: Seq<u8>)
    requires
        s.len() == 8,
    ensures
        crate::bytes::be_value(s) == s[0] * 0x100_0000_0000_0000 + s[1] * 0x1_0000_0000_0000 + s[2]
            * 0x100_0000_0000 + s[3] * 0x1_0000_0000 + s[4] * 0x100_0000 + s[5] * 0x1_0000 + s[6]
            * 0x100 + s[7],
{
    reveal_with_fuel(crate::bytes::be_value, 9);
}

proof fn lemma_digits(v: nat)
    requires
        v <= u64::MAX,
    ensures
        v == v / 0x100_0000_0000_0000 % 256 * 0x100_0000_0000_0000 + v / 0x1_0000_0000_0000 % 256
            * 0x1_0000_0000_0000 + v / 0x100_0000_0000 % 256 * 0x100_0000_0000 + v / 0x1_0000_0000
            % 256 * 0x1_0000_0000 + v / 0x100_0000 % 256 * 0x100_0000 + v / 0x1_0000 % 256
            * 0x1_0000 + v / 0x100 % 256 * 0x100 + v % 256,
{
    lemma_shifts(v);
    let q1 = v / 256;
    let q2 = v / 0x1_0000;
    let q3 = v / 0x100_0000;
    let q4 = v / 0x1_0000_0000;
    let q5 = v / 0x100_0000_0000;
    let q6 = v / 0x1_0000_0000_0000;
    let q7 = v / 0x100_0000_0000_0000;
    assert(v == q1 * 256 + v % 256);
    assert(q1 == q2 * 256 + q1 % 256);
    assert(q2 == q3 * 256 + q2 % 256);
    assert(q3 == q4 * 256 + q3 % 256);
    assert(q4 == q5 * 256 + q4 % 256);
    assert(q5 == q6 * 256 + q5 % 256);
    assert(q6 == q7 * 256 + q6 % 256);
    assert(q7 % 256 == q7);
}

proof fn lemma_long_length(len: nat)
    requires
        65535 < len <= u64::MAX,
    ensures
        crate::bytes::be_value(server_length(len).subrange(1, 9)) == len,
        server_length(len).len() == 9,
        server_length(len)[0] == 127,
{
    let field = server_length(len);
    let s = field.subrange(1, 9);
    lemma_eight(s);
    lemma_digits(len);
    assert(s[0] == field[1] && s[1] == field[2] && s[2] == field[3] && s[3] == field[4]);
    assert(s[4] == field[5] && s[5] == field[6] && s[6] == field[7] && s[7] == field[8]);
}

proof fn lemma_server_length(first: u8, payload: Seq<u8>, rest: Seq<u8>)
    requires
        payload.len() <= u64::MAX,
    ensures
        ({
            let b = server_frame(first, payload) + rest;
            &&& payload_len(b) == Some((payload.len(), 1 + server_length(payload.len()).len() as int))
            &&& b[0] == first
            &&& b[1] < 128
        }),
{
    let len = payload.len();
    let b = server_frame(first, payload) + rest;
    let field = server_length(len);
    assert(b[0] == first);
    assert(b[1] == field[0]);
    if len < 126 {
    } else if len <= 65535 {
        assert(b.subrange(2, 4) =~= seq![field[1], field[2]]);
        lemma_two(b.subrange(2, 4));
    } else {
        lemma_long_length(len);
        assert(b.subrange(2, 10) =~= field.subrange(1, 9));
    }
}

/// What a server's frame does, whatever comes behind it: one that ends a binary
/// message makes a message of it and of what came before, one that does not is
/// kept, a ping is noted, a close ends the connection, and anything else is
/// passed over. Exactly its bytes are taken.
pub proof fn law_server_frame_is_read(
    a: Arrived,
    first: u8,
    payload: Seq<u8>,
    rest: Seq<u8>,
)
    requires
        payload.len() <= u64::MAX,
        a.relay.pending == server_frame(first, payload) + rest,
    ensures
        ({
            let left = RelayView { pending: rest, ..a.relay };
            let whole = a.relay.partial + payload;
            let fin = first >= 128;
            let opcode = first % 16;
            frames_taken(a) == if opcode == 2 || opcode == 0 {
                if fin {
                    frames_taken(
                        Arrived {
                            relay: RelayView { partial: Seq::empty(), ..left },
                            messages: a.messages.push(whole),
                            pings: a.pings,
                        },
                    )
                } else {
                    frames_taken(
                        Arrived { relay: RelayView { partial: whole, ..left }, ..a },
                    )
                }
            } else if opcode == 8 {
                Arrived { relay: RelayView { closed: true, ..left }, ..a }
            } else if opcode == 9 {
                frames_taken(Arrived { relay: left, pings: a.pings.push(payload), ..a })
            } else {
                frames_taken(Arrived { relay: left, ..a })
            }
        }),
{
    let b = a.relay.pending;
    let head = 1 + server_length(payload.len()).len() as int;
    lemma_server_length(first, payload, rest);
    assert(b.subrange(head, head + payload.len()) =~= payload);
    let w = frame_at(b)->0;
    assert(w.end == head + payload.len());
    assert(b.subrange(w.end, b.len() as int) =~= rest);
    assert(frame_taken(a, w).relay.pending == rest);
}

/// A binary message of the server on an idle connection makes exactly one message
/// with that payload, and leaves nothing pending.
pub proof fn law_server_message_reads_back(payload: Seq<u8>)
    requires
        payload.len() <= u64::MAX,
    ensures
        ({
            let idle = RelayView {
                pending: Seq::empty(),
                partial: Seq::empty(),
                closed: false,
            };
            let a = Arrived {
                relay: RelayView { pending: server_frame(0x82, payload), ..idle },
                messages: Seq::empty(),
                pings: Seq::empty(),
            };
            frames_taken(a) == (Arrived { relay: idle, messages: seq![payload], ..a })
        }),
{
    let idle = RelayView { pending: Seq::empty(), partial: Seq::empty(), closed: false };
    let a = Arrived {
        relay: RelayView { pending: server_frame(0x82, payload), ..idle },
        messages: Seq::empty(),
        pings: Seq::empty(),
    };
    assert(server_frame(0x82, payload) + Seq::<u8>::empty() =~= server_frame(0x82, payload));
    law_server_frame_is_read(a, 0x82, payload, Seq::empty());
    assert(Seq::<u8>::empty() + payload =~= payload);
    assert(Seq::<Seq<u8>>::empty().push(payload) =~= seq![payload]);
}

/// A frame that has not fully arrived waits: nothing is read of a proper part of
/// it.
pub proof fn law_partial_frame_waits(a: Arrived, first: u8, payload: Seq<u8>, cut: int)
    requires
        payload.len() <= u64::MAX,
        0 <= cut < server_frame(first, payload).len(),
        a.relay.pending == server_frame(first, payload).subrange(0, cut),
    ensures
        frames_taken(a) == a,
{
    let b = a.relay.pending;
    let whole = server_frame(first, payload) + Seq::<u8>::empty();
    lemma_server_length(first, payload, Seq::empty());
    if cut >= 2 {
        assert(b[1] == whole[1]);
        if cut >= 4 {
            assert(b.subrange(2, 4) =~= whole.subrange(2, 4));
        }
        if cut >= 10 {
            assert(b.subrange(2, 10) =~= whole.subrange(2, 10));
        }
    }
    assert(frame_at(b) is None);
}

/// The bytes of several binary messages of the server, one behind the other.
pub open spec fn server_stream(payloads: Seq<Seq<u8>>) -> Seq<u8>
    decreases payloads.len(),
{
    if payloads.len() == 0 {
        Seq::empty()
    } else {
        server_frame(0x82, payloads[0]) + server_stream(payloads.drop_first())
    }
}

/// Messages of the server come out as they were sent, in order and none twice.
pub proof fn law_server_messages_read_back(a: Arrived, payloads: Seq<Seq<u8>>)
    requires
        a.relay.pending == server_stream(payloads),
        a.relay.partial == Seq::<u8>::empty(),
        forall|i: int| 0 <= i < payloads.len() ==> (#[trigger] payloads[i]).len() <= u64::MAX,
    ensures
        frames_taken(a) == (Arrived {
            relay: RelayView { pending: Seq::empty(), ..a.relay },
            messages: a.messages + payloads,
            pings: a.pings,
        }),
    decreases payloads.len(),
{
    if payloads.len() == 0 {
        assert(frame_at(a.relay.pending) is None);
        assert(a.messages + payloads =~= a.messages);
    } else {
        let rest = server_stream(payloads.drop_first());
        law_server_frame_is_read(a, 0x82, payloads[0], rest);
        assert(a.relay.partial + payloads[0] =~= payloads[0]);
        let next = Arrived {
            relay: RelayView { pending: rest, ..a.relay },
            messages: a.messages.push(payloads[0]),
            pings: a.pings,
        };
        assert forall|i: int| 0 <= i < payloads.drop_first().len() implies (
        #[trigger] payloads.drop_first()[i]).len() <= u64::MAX by {
            assert(payloads.drop_first()[i] == payloads[i + 1]);
        }
        law_server_messages_read_back(next, payloads.drop_first());
        assert(next.messages + payloads.drop_first() =~= a.messages + payloads);
    }
}

proof fn lemma_frame_is_stable(b: Seq<u8>, more: Seq<u8>)
    requires
        frame_at(b) is Some,
    ensures
        frame_at(b + more) == frame_at(b),
        0 < frame_at(b)->0.end <= b.len(),
{
    let c = b + more;
    assert(c[0] == b[0] && c[1] == b[1]);
    if b.len() >= 4 {
        assert(c.subrange(2, 4) =~= b.subrange(2, 4));
    }
    if b.len() >= 10 {
        assert(c.subrange(2, 10) =~= b.subrange(2, 10));
    }
    let (len, at) = payload_len(b)->0;
    assert(payload_len(c) == payload_len(b));
    let off = if b[1] >= 128 {
        at + 4
    } else {
        at
    };
    assert(c.subrange(off, off + len as int) =~= b.subrange(off, off + len as int));
    if b[1] >= 128 {
        assert(c.subrange(at, at + 4) =~= b.subrange(at, at + 4));
    }
}

/// How the bytes of a connection are cut on their way makes no difference: to
/// read what has arrived, and then the rest with what was left over, is to read
/// all of it at once, up to a close.
pub proof fn law_cuts_make_no_difference(a: Arrived, more: Seq<u8>)
    requires
        !a.relay.closed,
    ensures
        ({
            let all = Arrived {
                relay: RelayView { pending: a.relay.pending + more, ..a.relay },
                ..a
            };
            let first = frames_taken(a);
            let then = Arrived {
                relay: RelayView { pending: first.relay.pending + more, ..first.relay },
                ..first
            };
            !first.relay.closed ==> frames_taken(all) == frames_taken(then)
        }),
    decreases a.relay.pending.len(),
{
    let b = a.relay.pending;
    let all = Arrived { relay: RelayView { pending: b + more, ..a.relay }, ..a };
    if frame_at(b) is Some {
        lemma_frame_is_stable(b, more);
        let w = frame_at(b)->0;
        let next = frame_taken(a, w);
        assert((b + more).subrange(w.end, (b + more).len() as int) =~= b.subrange(
            w.end,
            b.len() as int,
        ) + more);
        if w.opcode != 8 {
            law_cuts_make_no_difference(next, more);
            let next_all = Arrived {
                relay: RelayView { pending: next.relay.pending + more, ..next.relay },
                ..next
            };
            assert(frame_taken(all, w) == next_all);
        }
    }
}

/// What is sent to the relay is one binary message, masked: its first byte says
/// so, the mask stands behind the length, and every byte behind the mask is one
/// of the frame, changed by its byte of the mask.
pub proof fn law_sent_frames_are_masked(frame: Seq<u8>, mask: Seq<u8>, i: int)
    requires
        mask.len() >= 4,
        0 <= i < frame.len() <= u64::MAX,
    ensures
        ({
            let b = binary_frame(frame, mask);
            let at = 1 + server_length(frame.len()).len() as int;
            &&& b[0] == 0x82
            &&& b[1] == server_length(frame.len())[0] + 128
            &&& b.subrange(2, at) == server_length(frame.len()).subrange(1, at - 1)
            &&& b.subrange(at, at + 4) == mask.subrange(0, 4)
            &&& b.len() == at + 4 + frame.len()
            &&& b[at + 4 + i] == frame[i] ^ mask[i % 4]
        }),
{
    let len = frame.len();
    let b = binary_frame(frame, mask);
    let at = 1 + server_length(len).len() as int;
    crate::bytes::lemma_be_bytes_len(len, 2);
    crate::bytes::lemma_be_bytes_len(len, 8);
    if 126 <= len <= 65535 {
        reveal_with_fuel(crate::bytes::be_bytes, 3);
    } else if len > 65535 {
        reveal_with_fuel(crate::bytes::be_bytes, 9);
        lemma_shifts(len);
    }
    assert(b.subrange(2, at) =~= server_length(len).subrange(1, at - 1));
    assert(b.subrange(at, at + 4) =~= mask.subrange(0, 4));
}

proof fn lemma_shifts(v: nat)
    ensures
        v / 256 / 256 == v / 0x1_0000,
        v / 0x1_0000 / 256 == v / 0x100_0000,
        v / 0x100_0000 / 256 == v / 0x1_0000_0000,
        v / 0x1_0000_0000 / 256 == v / 0x100_0000_0000,
        v / 0x100_0000_0000 / 256 == v / 0x1_0000_0000_0000,
        v / 0x1_0000_0000_0000 / 256 == v / 0x100_0000_0000_0000,
{
}

/// A base64 character is the one at its place in the alphabet.
pub proof fn law_base64_alphabet(n: int)
    requires
        0 <= n < 64,
    ensures
        base64_char(n)
            == "ABCDEFGHIJKLMNOPQRSTUVWXYZabcdefghijklmnopqrstuvwxyz0123456789+/"@[n],
{
    reveal_strlit("ABCDEFGHIJKLMNOPQRSTUVWXYZabcdefghijklmnopqrstuvwxyz0123456789+/");
}

proof fn lemma_sextets(n: int, a: int, b: int, c: int, d: int)
    requires
        0 <= a < 64,
        0 <= b < 64,
        0 <= c < 64,
        0 <= d < 64,
        n == (a * 4 + b / 16) * 65536 + (b % 16 * 16 + c / 4) * 256 + (c % 4 * 64 + d),
    ensures
        n / 262144 % 64 == a,
        n / 4096 % 64 == b,
        n / 64 % 64 == c,
        n % 64 == d,
{
    assert(b == b / 16 * 16 + b % 16);
    assert(c == c / 4 * 4 + c % 4);
    assert(n == a * 262144 + b * 4096 + c * 64 + d);
    assert(n / 262144 == a);
    assert(n / 4096 == a * 64 + b);
    assert(n / 64 == a * 4096 + b * 64 + c);
}

/// Three bytes can be read back from four base64 characters.
pub proof fn law_base64_reads_back(data: Seq<u8>, a: int, b: int, c: int, d: int)
    requires
        data.len() == 3,
        0 <= a < 64,
        0 <= b < 64,
        0 <= c < 64,
        0 <= d < 64,
        data[0] == a * 4 + b / 16,
        data[1] == b % 16 * 16 + c / 4,
        data[2] == c % 4 * 64 + d,
    ensures
        base64_text(data) == seq![
            base64_char(a),
            base64_char(b),
            base64_char(c),
            base64_char(d),
        ],
{
    let n = data[0] * 65536 + data[1] * 256 + data[2];
    lemma_sextets(n, a, b, c, d);
    reveal_with_fuel(crate::ws::base64_from, 2);
    assert(base64_text(data) =~= seq![
        base64_char(a),
        base64_char(b),
        base64_char(c),
        base64_char(d),
    ]);
}

proof fn lemma_first(s: Seq<char>, c: char, at: int, from: int)
    requires
        0 <= from <= at < s.len(),
        s[at] == c,
        forall|i: int| from <= i < at ==> s[i] != c,
    ensures
        find_char(s, c, from) == Some(at),
    decreases at - from,
{
    if from < at {
        lemma_first(s, c, at, from + 1);
    }
}

proof fn lemma_none(s: Seq<char>, c: char, from: int)
    requires
        0 <= from <= s.len(),
        forall|i: int| from <= i < s.len() ==> s[i] != c,
    ensures
        find_char(s, c, from) is None,
    decreases s.len() - from,
{
    if from < s.len() {
        lemma_none(s, c, from + 1);
    }
}

/// A relay URL of an authority without slashes, and a path that starts with one,
/// is taken apart into them; the address to connect to is the authority, with
/// port 80 where it names none. Without a path the path is a slash.
pub proof fn law_relay_url_is_taken_apart(authority: Seq<char>, path: Seq<char>)
    requires
        forall|i: int| 0 <= i < authority.len() ==> authority[i] != '/',
        path.len() == 0 || path[0] == '/',
    ensures
        relay_parts("ws://"@ + authority + path) == Ok::<
            (Seq<char>, Seq<char>, Seq<char>),
            Seq<char>,
        >(
            (
                authority,
                if path.len() == 0 {
                    "/"@
                } else {
                    path
                },
                if authority.contains(':') {
                    authority
                } else {
                    authority + ":80"@
                },
            ),
        ),
{
    reveal_strlit("ws://");
    let url = "ws://"@ + authority + path;
    let rest = url.subrange(5, url.len() as int);
    assert(rest =~= authority + path);
    assert(crate::text::has_prefix(url, "ws://"@)) by {
        assert(url.subrange(0, 5) =~= "ws://"@);
    }
    if path.len() == 0 {
        lemma_none(rest, '/', 0);
        assert(rest =~= authority);
    } else {
        lemma_first(rest, '/', authority.len() as int, 0);
        assert(rest.subrange(0, authority.len() as int) =~= authority);
        assert(rest.subrange(authority.len() as int, rest.len() as int) =~= path);
    }
    if authority.contains(':') {
        lemma_found(authority, ':', 0, authority.index_of(':'));
    } else {
        assert forall|i: int| 0 <= i < authority.len() implies authority[i] != ':' by {
            if authority[i] == ':' {
                assert(authority.contains(':'));
            }
        }
        lemma_none(authority, ':', 0);
    }
}

proof fn lemma_found(s: Seq<char>, c: char, from: int, at: int)
    requires
        0 <= from <= at < s.len(),
        s[at] == c,
    ensures
        find_char(s, c, from) is Some,
    decreases at - from,
{
    if from < at && s[from] != c {
        lemma_found(s, c, from + 1, at);
    }
}

} // verus!
