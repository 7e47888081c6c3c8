//! What a guest behind the proxy can rely on: its request goes out as it was
//! made, and what comes back reaches it.

use vstd::prelude::*;
use vstd::string::StringSliceAdditionalSpecFns;
use vstd::utf8::encode_utf8;

use crate::bytes::dec_text;
use crate::egress::{response_in, ResponseView};
use crate::http::{
    authority_host, connect_request, crlf_at, head_end_from, proxy_request, with_scheme, ParseError,
};
use crate::http_laws::{
    decimal, is_name, is_plain, joined, law_body_is_as_long_as_declared, law_decimal_reads_back,
    law_request_is_read_as_written, law_response_is_read_as_written, lemma_connect_words,
    lemma_decimal, lemma_not_there, lemma_there_back, request_line, request_text, response_lines,
    solid, stands,
};
use crate::proxy::{error_body, response_head, sized_head, ActionView, ConnView, ProxyView};
use crate::text::{has_prefix, is_white, lemma_text_round_trip, lowered};
use crate::wire::{header_view, Completion, Headers, RequestView};

verus! {

// ---- whole requests ------------------------------------------------------

/// Whether a buffer begins with a head, and the first empty line is behind it.
pub open spec fn has_head(buf: Seq<u8>, head: Seq<u8>) -> bool {
    let n = head.len() as int;
    &&& n + 4 <= buf.len()
    &&& buf.subrange(0, n) == head
    &&& buf[n] == 13 && buf[n + 1] == 10 && buf[n + 2] == 13 && buf[n + 3] == 10
    &&& forall|i: int|
        0 <= i < n ==> !(#[trigger] buf[i] == 13 && buf[i + 1] == 10 && buf[i + 2] == 13 && buf[i
            + 3] == 10)
}

proof fn lemma_head_end(buf: Seq<u8>, n: int, from: int)
    requires
        0 <= from <= n,
        has_head(buf, buf.subrange(0, n)),
        n + 4 <= buf.len(),
    ensures
        head_end_from(buf, from) == Some(n + 4),
    decreases n - from,
{
    assert(buf.subrange(0, n).len() == n);
    if from < n {
        assert(!(buf[from] == 13 && buf[from + 1] == 10 && buf[from + 2] == 13 && buf[from + 3]
            == 10));
        lemma_head_end(buf, n, from + 1);
    }
}

/// A request that has arrived is read as it was written: a head in UTF-8, an
/// empty line, and a body as long as the head declares, which may be followed by
/// anything. One whose body has not arrived waits.
pub proof fn law_whole_request_is_read(
    buf: Seq<u8>,
    method: Seq<char>,
    target: Seq<char>,
    headers: Headers,
    length: Option<nat>,
)
    requires
        method.len() > 0,
        solid(method),
        lowered(method) != lowered("CONNECT"@),
        solid(target),
        has_prefix(target, "http://"@) || has_prefix(target, "https://"@),
        forall|i: int| 0 <= i < headers.len() ==> is_plain(#[trigger] headers[i]),
        length matches Some(n) ==> n <= 33_554_432,
        has_head(buf, encode_utf8(written_head(method, target, headers, length))),
    ensures
        ({
            let end = encode_utf8(written_head(method, target, headers, length)).len() as int
                + 4;
            let n = match length {
                Some(n) => n,
                None => 0,
            };
            proxy_request(buf, false) == if end + n <= buf.len() {
                Ok::<Option<RequestView>, ParseError>(
                    Some(
                        RequestView {
                            method,
                            url: target,
                            headers,
                            body: buf.subrange(end, end + n as int),
                        },
                    ),
                )
            } else {
                Ok(None)
            }
        }),
{
    let text = written_head(method, target, headers, length);
    let head = encode_utf8(text);
    let end = head.len() as int + 4;
    lemma_head_end(buf, end - 4, 0);
    lemma_text_round_trip(text);
    match length {
        Some(n) => {
            law_body_is_as_long_as_declared(buf, end, method, target, headers, n);
        },
        None => {
            law_request_is_read_as_written(buf, end, method, target, headers);
            assert(buf.subrange(end, end) =~= Seq::<u8>::empty());
        },
    }
}

/// The text of a request's head, with a declared length behind the other headers.
pub open spec fn written_head(
    method: Seq<char>,
    target: Seq<char>,
    headers: Headers,
    length: Option<nat>,
) -> Seq<char> {
    match length {
        Some(n) => request_text(method, target, headers.push(("Content-Length"@, decimal(n)))),
        None => request_text(method, target, headers),
    }
}

/// A response that has arrived is read as it was written: a head in UTF-8, an
/// empty line, and everything behind it as the body.
pub proof fn law_whole_response_is_read(raw: Seq<u8>, status: nat, headers: Headers)
    requires
        status <= 65535,
        forall|i: int| 0 <= i < headers.len() ==> is_plain(#[trigger] headers[i]),
        has_head(raw, encode_utf8(joined(response_lines(status, headers), 0))),
    ensures
        ({
            let end = encode_utf8(joined(response_lines(status, headers), 0)).len() as int + 4;
            response_in(raw) == Ok::<ResponseView, Seq<char>>(
                ResponseView {
                    status: status as u16,
                    headers,
                    body: raw.subrange(end, raw.len() as int),
                },
            )
        }),
{
    let text = joined(response_lines(status, headers), 0);
    let end = encode_utf8(text).len() as int + 4;
    lemma_head_end(raw, end - 4, 0);
    lemma_text_round_trip(text);
    law_response_is_read_as_written(status, headers, raw.subrange(end, raw.len() as int));
}

/// Where the scheme is upgraded, an `http` URL goes out as the `https` URL of the
/// same host and path; where it is not, and for an `https` URL, it goes out as it
/// is.
pub proof fn law_upgrade_changes_the_scheme_only(rest: Seq<char>, upgrade: bool)
    ensures
        with_scheme("http://"@ + rest, true) == "https://"@ + rest,
        with_scheme("http://"@ + rest, false) == "http://"@ + rest,
        with_scheme("https://"@ + rest, upgrade) == "https://"@ + rest,
{
    reveal_strlit("http://");
    reveal_strlit("https://");
    let a = "http://"@ + rest;
    let b = "https://"@ + rest;
    assert(a.subrange(0, 7) =~= "http://"@);
    assert(a.subrange(7, a.len() as int) =~= rest);
    assert(b.subrange(0, 7)[4] == 's');
    assert("http://"@[4] == ':');
}

/// Upgrading changes nothing of a request but its URL.
pub proof fn law_upgraded_request_is_the_request(buf: Seq<u8>)
    ensures
        proxy_request(buf, false) matches Ok(Some(request)) ==> proxy_request(buf, true) == Ok::<
            Option<RequestView>,
            ParseError,
        >(Some(RequestView { url: with_scheme(request.url, true), ..request })),
        proxy_request(buf, false) matches Ok(None) ==> proxy_request(buf, true) == Ok::<
            Option<RequestView>,
            ParseError,
        >(None),
{
}

// ---- tunnels -------------------------------------------------------------

proof fn lemma_first_line(buf: Seq<u8>, n: int, from: int)
    requires
        0 <= from <= n,
        n + 2 <= buf.len(),
        buf[n] == 13,
        buf[n + 1] == 10,
        forall|i: int| 0 <= i < n ==> #[trigger] buf[i] != 13,
    ensures
        crlf_at(buf, from) == Some(n),
    decreases n - from,
{
    if from < n {
        assert(buf[from] != 13);
        lemma_first_line(buf, n, from + 1);
    }
}

/// A CONNECT names the host of its authority, and its head ends behind the first
/// empty line.
pub proof fn law_connect_names_its_host(
    buf: Seq<u8>,
    head: Seq<u8>,
    host: Seq<char>,
    port: nat,
    line: Seq<u8>,
)
    requires
        is_name(host),
        solid(host),
        port <= 65535,
        has_head(buf, head),
        line == encode_utf8(request_line("CONNECT"@, host + seq![':'] + decimal(port))),
        line.len() <= head.len(),
        buf.subrange(0, line.len() as int) == line,
        buf[line.len() as int] == 13,
        buf[line.len() as int + 1] == 10,
        forall|i: int| 0 <= i < line.len() ==> #[trigger] line[i] != 13,
    ensures
        connect_request(buf) == Ok::<Option<(Seq<char>, int)>, ParseError>(
            Some((host, head.len() as int + 4)),
        ),
{
    let n = head.len() as int;
    let authority = host + seq![':'] + decimal(port);
    assert(buf.subrange(0, n) == head);
    lemma_head_end(buf, n, 0);
    assert forall|i: int| 0 <= i < line.len() implies #[trigger] buf[i] != 13 by {
        assert(buf.subrange(0, line.len() as int)[i] == line[i]);
    }
    lemma_first_line(buf, line.len() as int, 0);
    lemma_text_round_trip(request_line("CONNECT"@, authority));
    law_authority_names_its_host(host, port);
    lemma_authority_is_solid(host, port);
    lemma_connect_words(authority);
}

proof fn lemma_authority_is_solid(host: Seq<char>, port: nat)
    requires
        solid(host),
    ensures
        solid(host + seq![':'] + decimal(port)),
{
    let s = host + seq![':'] + decimal(port);
    lemma_decimal(port);
    assert forall|i: int| 0 <= i < s.len() implies !is_white(#[trigger] s[i]) by {
        if i < host.len() {
            assert(s[i] == host[i]);
        } else if i > host.len() {
            assert(s[i] == decimal(port)[i - host.len() - 1]);
            assert('0' <= decimal(port)[i - host.len() - 1] <= '9');
        }
    }
}

/// An authority of a host and a port names that host.
pub proof fn law_authority_names_its_host(host: Seq<char>, port: nat)
    requires
        is_name(host),
        port <= 65535,
    ensures
        authority_host(host + seq![':'] + decimal(port)) == Some(host),
{
    let s = host + seq![':'] + decimal(port);
    let h = host.len() as int;
    lemma_decimal(port);
    law_decimal_reads_back(port, 65535);
    assert(s[0] == host[0]);
    assert(s[h] == ':');
    assert forall|i: int| h < i < s.len() implies s[i] != ':' by {
        assert(s[i] == decimal(port)[i - h - 1]);
        assert('0' <= decimal(port)[i - h - 1] <= '9');
    }
    lemma_there_back(s, ':', h, s.len() as int);
    assert(s.subrange(0, h) =~= host);
    assert(s.subrange(h + 1, s.len() as int) =~= decimal(port));
    lemma_not_there(host, ':', 0);
}

/// A CONNECT opens a tunnel to its host; once there is one, the guest is told so,
/// and what it sent behind the CONNECT is the first of the tunnel, as everything
/// is that it sends from then on.
pub proof fn law_tunnel_carries_what_follows(
    proxy: ProxyView,
    id: u64,
    bytes: Seq<u8>,
    host: Seq<char>,
    end: int,
    more: Seq<u8>,
)
    requires
        proxy.conns.contains_key(id),
        !proxy.conns[id].tls,
        !proxy.conns[id].submitted,
        proxy.conns[id].buf.len() == 0,
        bytes.len() <= 65536,
        0 <= end < bytes.len(),
        connect_request(bytes) == Ok::<Option<(Seq<char>, int)>, ParseError>(Some((host, end))),
    ensures
        ({
            let asked = proxy.received(id, bytes);
            let made = asked.proxy.tunneled(id, None);
            &&& asked.actions == seq![ActionView::OpenTunnel(id, host)]
            &&& made.actions == seq![
                ActionView::SendRaw(
                    id,
                    "HTTP/1.1 200 Connection Established\r\n\r\n".spec_bytes(),
                ),
                ActionView::Decrypt(id, bytes.subrange(end, bytes.len() as int)),
            ]
            &&& made.proxy.received(id, more).actions == seq![ActionView::Decrypt(id, more)]
        }),
{
    let asked = proxy.received(id, bytes);
    let made = asked.proxy.tunneled(id, None);
    assert(proxy.conns[id].buf + bytes =~= bytes);
    assert(made.actions =~= seq![
        ActionView::SendRaw(id, "HTTP/1.1 200 Connection Established\r\n\r\n".spec_bytes()),
        ActionView::Decrypt(id, bytes.subrange(end, bytes.len() as int)),
    ]);
}

// ---- the exchange --------------------------------------------------------

/// A connection that was opened and has sent `buf` in the clear.
pub open spec fn gathering(proxy: ProxyView, id: u64, buf: Seq<u8>) -> bool {
    proxy.conns.contains_key(id) && proxy.conns[id] == (ConnView {
        buf,
        submitted: false,
        head_sent: false,
        tls: false,
    })
}

/// A connection that the guest opens has sent nothing, and other connections are
/// left alone.
pub proof fn law_opened_connection_is_empty(proxy: ProxyView, id: u64, other: u64)
    requires
        other != id,
    ensures
        gathering(proxy.opened(id), id, Seq::empty()),
        proxy.opened(id).conns.contains_key(other) == proxy.conns.contains_key(other),
        proxy.conns.contains_key(other) ==> proxy.opened(id).conns[other] == proxy.conns[other],
        proxy.opened(id).inflight == proxy.inflight,
{
}

/// How the bytes of a request are cut makes no difference: bytes that make no
/// request yet are kept, and those that follow are looked at together with them.
pub proof fn law_request_is_gathered(
    proxy: ProxyView,
    id: u64,
    buf: Seq<u8>,
    a: Seq<u8>,
    b: Seq<u8>,
)
    requires
        gathering(proxy, id, buf),
        proxy.received(id, a).actions.len() == 0,
    ensures
        gathering(proxy.received(id, a).proxy, id, buf + a),
        proxy.received(id, a).proxy.received(id, b) == proxy.received(id, a + b),
{
    let with = proxy.buffered(id, a);
    let sent = proxy.received(id, a);
    assert(with.conns[id].buf == buf + a);
    assert(sent.proxy == with);
    assert((buf + a) + b =~= buf + (a + b));
    assert(with.buffered(id, b).conns =~= proxy.buffered(id, a + b).conns);
    assert(with.buffered(id, b) == proxy.buffered(id, a + b));
}

/// A complete request is submitted once, under a number of its own, and the
/// number leads back to its connection.
pub proof fn law_complete_request_is_submitted(
    proxy: ProxyView,
    id: u64,
    buf: Seq<u8>,
    bytes: Seq<u8>,
    request: RequestView,
)
    requires
        gathering(proxy, id, buf),
        buf.len() + bytes.len() <= 33_554_432,
        connect_request(buf + bytes) == Ok::<Option<(Seq<char>, int)>, ParseError>(None),
        proxy_request(buf + bytes, proxy.upgrade) == Ok::<Option<RequestView>, ParseError>(
            Some(request),
        ),
        request.url != "http://rv64-proxy.invalid/ca.der"@,
        request.url != "https://rv64-proxy.invalid/ca.der"@,
        proxy.next_req < u64::MAX,
    ensures
        ({
            let step = proxy.received(id, bytes);
            &&& step.actions == seq![ActionView::Submit(proxy.next_req, request)]
            &&& step.proxy.inflight == proxy.inflight.insert(proxy.next_req, id)
            &&& step.proxy.next_req == proxy.next_req + 1
            &&& step.proxy.conns[id].submitted
            &&& step.proxy.conns.dom() == proxy.conns.dom()
        }),
{
    let with = proxy.buffered(id, bytes);
    let step = proxy.received(id, bytes);
    assert(with.conns[id].buf == buf + bytes);
    assert(step.proxy.conns.dom() =~= proxy.conns.dom());
}

/// A guest that asks the proxy for its certificate gets it, and nothing goes
/// upstream: a head that says its length, the certificate, and the end.
pub proof fn law_certificate_is_served(
    proxy: ProxyView,
    id: u64,
    buf: Seq<u8>,
    bytes: Seq<u8>,
    request: RequestView,
    der: Seq<u8>,
)
    requires
        gathering(proxy, id, buf),
        buf.len() + bytes.len() <= 33_554_432,
        connect_request(buf + bytes) == Ok::<Option<(Seq<char>, int)>, ParseError>(None),
        proxy_request(buf + bytes, proxy.upgrade) == Ok::<Option<RequestView>, ParseError>(
            Some(request),
        ),
        request.method == "GET"@,
        request.url == "http://rv64-proxy.invalid/ca.der"@ || request.url
            == "https://rv64-proxy.invalid/ca.der"@,
    ensures
        ({
            let asked = proxy.received(id, bytes);
            let served = asked.proxy.ca_served(id, Ok(der));
            &&& asked.actions == seq![ActionView::ServeCa(id)]
            &&& asked.proxy.inflight == proxy.inflight
            &&& served.actions == seq![
                ActionView::Send(
                    id,
                    sized_head(200, "OK"@, "application/pkix-cert", der.len()),
                ),
                ActionView::Send(id, der),
                ActionView::Close(id, false),
            ]
            &&& !served.proxy.conns.contains_key(id)
        }),
{
    let with = proxy.buffered(id, bytes);
    let asked = proxy.received(id, bytes);
    let served = asked.proxy.ca_served(id, Ok(der));
    assert(with.conns[id].buf == buf + bytes);
    assert(served.actions =~= seq![
        ActionView::Send(id, sized_head(200, "OK"@, "application/pkix-cert", der.len())),
        ActionView::Send(id, der),
        ActionView::Close(id, false),
    ]);
}

/// What comes back for a request reaches the connection that made it, as it came:
/// the head, then the bytes of the body. The end closes the connection, and the
/// number and the connection are then forgotten.
pub proof fn law_response_reaches_its_connection(
    proxy: ProxyView,
    request: u64,
    status: u16,
    headers: Vec<(String, String)>,
    bytes: Vec<u8>,
)
    requires
        proxy.inflight.contains_key(request),
        proxy.conns.contains_key(proxy.inflight[request]),
    ensures
        ({
            let id = proxy.inflight[request];
            let head = proxy.completed(Completion::Head { id: request, status, headers });
            let body = proxy.completed(Completion::Body { id: request, bytes });
            let end = proxy.completed(Completion::End { id: request });
            &&& head.actions == seq![
                ActionView::Send(id, response_head(status, header_view(headers@))),
            ]
            &&& head.proxy.inflight == proxy.inflight
            &&& head.proxy.conns.contains_key(id)
            &&& head.proxy.conns[id] == (ConnView { head_sent: true, ..proxy.conns[id] })
            &&& body.actions == seq![ActionView::Send(id, bytes@)]
            &&& body.proxy == proxy
            &&& end.actions == seq![ActionView::Close(id, true)]
            &&& end.proxy.inflight == proxy.inflight.remove(request)
            &&& end.proxy.conns == proxy.conns.remove(id)
        }),
{
}

/// A failure behind the head of a response cuts the response off: the connection
/// closes without more bytes, and without the farewell that a whole one gets.
pub proof fn law_late_failure_cuts_the_response(proxy: ProxyView, request: u64, error: String)
    requires
        proxy.inflight.contains_key(request),
        proxy.conns.contains_key(proxy.inflight[request]),
        proxy.conns[proxy.inflight[request]].head_sent,
    ensures
        ({
            let id = proxy.inflight[request];
            let step = proxy.completed(Completion::Failed { id: request, error });
            &&& step.actions == seq![ActionView::Close(id, false)]
            &&& !step.proxy.inflight.contains_key(request)
            &&& !step.proxy.conns.contains_key(id)
        }),
{
}

/// What comes back for a number that no request has changes nothing.
pub proof fn law_stray_response_changes_nothing(proxy: ProxyView, completion: Completion)
    requires
        !proxy.inflight.contains_key(completion.request()),
    ensures
        proxy.completed(completion).proxy == proxy,
        proxy.completed(completion).actions.len() == 0,
{
}

/// An answer of the proxy's own says its status and the length of its body.
pub proof fn law_own_answer_says_its_length(
    status: u16,
    reason: Seq<char>,
    kind: &str,
    detail: Seq<char>,
    len: nat,
)
    ensures
        ({
            let first = "HTTP/1.1 ".spec_bytes() + dec_text(status as nat) + " ".spec_bytes()
                + encode_utf8(reason) + "\r\n".spec_bytes();
            let last = "\r\nContent-Length: ".spec_bytes() + dec_text(len)
                + "\r\nConnection: close\r\n\r\n".spec_bytes();
            let head = sized_head(status, reason, kind, len);
            let body = error_body(status, reason, detail);
            let said = encode_utf8(detail) + "\n".spec_bytes();
            &&& stands(head, first, 0)
            &&& stands(head, last, head.len() - last.len())
            &&& stands(body, dec_text(status as nat), 0)
            &&& stands(body, said, body.len() - said.len())
        }),
{
    let first = "HTTP/1.1 ".spec_bytes() + dec_text(status as nat) + " ".spec_bytes()
        + encode_utf8(reason) + "\r\n".spec_bytes();
    let last = "\r\nContent-Length: ".spec_bytes() + dec_text(len)
        + "\r\nConnection: close\r\n\r\n".spec_bytes();
    let head = sized_head(status, reason, kind, len);
    let body = error_body(status, reason, detail);
    let said = encode_utf8(detail) + "\n".spec_bytes();
    let mid = "Content-Type: ".spec_bytes() + kind.spec_bytes();
    assert(head =~= first + mid + last);
    assert(head.subrange(0, first.len() as int) =~= first);
    assert(head.subrange(head.len() - last.len(), head.len() as int) =~= last);
    let front = dec_text(status as nat) + " ".spec_bytes() + encode_utf8(reason)
        + ": ".spec_bytes();
    assert(body =~= front + said);
    assert(body.subrange(0, dec_text(status as nat).len() as int) =~= dec_text(status as nat));
    assert(body.subrange(body.len() - said.len(), body.len() as int) =~= said);
}

} // verus!
