//! HTTP proxy for the guest, running on the host side of virtio-net: the state
//! of its connections, and what it does about each event.
//!
//! The guest points `http_proxy` at us and sends ordinary proxy requests over
//! TCP. We parse each request and hand it to egress, which decides how it
//! actually leaves: a `fetch()` in the browser, a socket natively.
//!
//! - `CONNECT` is terminated locally with certificates minted by an ephemeral
//!   proxy CA. The CA certificate is available inside the guest at
//!   `http://rv64-proxy.invalid/ca.der`; it must be trusted by the guest client.
//! - One request per connection: every response says `Connection: close`. A
//!   proxy is allowed to do this, it keeps request framing trivial, and it makes
//!   the response body EOF-delimited — which is exactly what lets responses
//!   stream without chunked encoding.
//!
//! The embedding owns the TCP connections and the TLS sessions: it reports what
//! happens on them and carries out the actions that come back.

use std::collections::HashMap;
use vstd::prelude::*;
use vstd::string::StringSliceAdditionalSpecFns;
use vstd::utf8::encode_utf8;
use crate::bytes::{copy_range, dec_text, push_all, push_dec};
use crate::http::{
    connect_request, hop_by_hop, is_hop_by_hop, parse_connect, parse_request, proxy_request,
    ParseError, MAX_BODY, MAX_HEAD,
};
use crate::text::{chars_of, is_text, is_text_ignoring_case, lowered, to_lower};
use crate::wire::{header_view, Completion, Headers, Request, RequestView};

verus! {

broadcast use vstd::std_specs::hash::group_hash_axioms;

pub const CA_URL_HTTP: &'static str = "http://rv64-proxy.invalid/ca.der";

pub const CA_URL_HTTPS: &'static str = "https://rv64-proxy.invalid/ca.der";

/// Stable virtio-9p mount tag used to expose the public proxy CA to a guest.
pub const CA_9P_TAG: &'static str = "rv64-proxy";

/// Path of the DER-encoded public proxy CA inside [`CA_9P_TAG`].
pub const CA_9P_DER_PATH: &'static str = "/ca.der";

/// Path of the PEM-encoded public proxy CA inside [`CA_9P_TAG`].
pub const CA_9P_PEM_PATH: &'static str = "/ca.pem";

/// Identifies a guest connection.
pub type ConnId = u64;

// ---- responses -----------------------------------------------------------

/// The phrase that goes with a status.
pub open spec fn phrase(status: u16) -> &'static str {
    if status == 200 {
        "OK"
    } else if status == 201 {
        "Created"
    } else if status == 204 {
        "No Content"
    } else if status == 301 {
        "Moved Permanently"
    } else if status == 302 {
        "Found"
    } else if status == 304 {
        "Not Modified"
    } else if status == 400 {
        "Bad Request"
    } else if status == 401 {
        "Unauthorized"
    } else if status == 403 {
        "Forbidden"
    } else if status == 404 {
        "Not Found"
    } else if status == 413 {
        "Payload Too Large"
    } else if status == 429 {
        "Too Many Requests"
    } else if status == 431 {
        "Request Header Fields Too Large"
    } else if status == 500 {
        "Internal Server Error"
    } else if status == 501 {
        "Not Implemented"
    } else if status == 502 {
        "Bad Gateway"
    } else if status == 503 {
        "Service Unavailable"
    } else if status == 504 {
        "Gateway Timeout"
    } else if status < 200 {
        "Informational"
    } else if status < 300 {
        "Success"
    } else if status < 400 {
        "Redirection"
    } else if status < 500 {
        "Client Error"
    } else {
        "Server Error"
    }
}

/// The phrase that goes with a status.
pub fn reason_phrase(status: u16) -> (r: &'static str)
    ensures
        r == phrase(status),
{
    if status == 200 {
        "OK"
    } else if status == 201 {
        "Created"
    } else if status == 204 {
        "No Content"
    } else if status == 301 {
        "Moved Permanently"
    } else if status == 302 {
        "Found"
    } else if status == 304 {
        "Not Modified"
    } else if status == 400 {
        "Bad Request"
    } else if status == 401 {
        "Unauthorized"
    } else if status == 403 {
        "Forbidden"
    } else if status == 404 {
        "Not Found"
    } else if status == 413 {
        "Payload Too Large"
    } else if status == 429 {
        "Too Many Requests"
    } else if status == 431 {
        "Request Header Fields Too Large"
    } else if status == 500 {
        "Internal Server Error"
    } else if status == 501 {
        "Not Implemented"
    } else if status == 502 {
        "Bad Gateway"
    } else if status == 503 {
        "Service Unavailable"
    } else if status == 504 {
        "Gateway Timeout"
    } else if status < 200 {
        "Informational"
    } else if status < 300 {
        "Success"
    } else if status < 400 {
        "Redirection"
    } else if status < 500 {
        "Client Error"
    } else {
        "Server Error"
    }
}

/// Whether a response header reaches the guest. `content-length` and
/// `content-encoding` are deliberately dropped. `fetch()` decompresses
/// transparently, so the bytes we forward are already decoded while the
/// upstream length still describes the *compressed* body — forwarding either
/// would truncate the response or make the guest try to gunzip plaintext. The
/// body is instead delimited by the close, which is always correct.
pub open spec fn forwarded(name: Seq<char>) -> bool {
    let low = lowered(name);
    !hop_by_hop(low) && low != "content-length"@ && low != "content-encoding"@
}

/// The first `n` response headers, as far as they are forwarded.
pub open spec fn header_lines(headers: Headers, n: int) -> Seq<u8>
    decreases n,
{
    if n <= 0 {
        Seq::empty()
    } else if forwarded(headers[n - 1].0) {
        header_lines(headers, n - 1) + (encode_utf8(headers[n - 1].0) + ": ".spec_bytes()
            + encode_utf8(headers[n - 1].1) + "\r\n".spec_bytes())
    } else {
        header_lines(headers, n - 1)
    }
}

/// A status line.
pub open spec fn status_line(status: u16, reason: Seq<char>) -> Seq<u8> {
    "HTTP/1.1 ".spec_bytes() + dec_text(status as nat) + " ".spec_bytes() + encode_utf8(reason)
        + "\r\n".spec_bytes()
}

/// The head of a response that is streamed to the guest.
pub open spec fn response_head(status: u16, headers: Headers) -> Seq<u8> {
    status_line(status, phrase(status)@) + header_lines(headers, headers.len() as int)
        + "Connection: close\r\n\r\n".spec_bytes()
}

/// The body of an error response.
pub open spec fn error_body(status: u16, reason: Seq<char>, detail: Seq<char>) -> Seq<u8> {
    dec_text(status as nat) + " ".spec_bytes() + encode_utf8(reason) + ": ".spec_bytes()
        + encode_utf8(detail) + "\n".spec_bytes()
}

/// The head of a response whose body is known.
pub open spec fn sized_head(status: u16, reason: Seq<char>, kind: &str, len: nat) -> Seq<u8> {
    status_line(status, reason) + "Content-Type: ".spec_bytes() + kind.spec_bytes()
        + "\r\nContent-Length: ".spec_bytes() + dec_text(len)
        + "\r\nConnection: close\r\n\r\n".spec_bytes()
}

fn push_status_line(out: &mut Vec<u8>, status: u16, reason: &str)
    ensures
        final(out)@ == old(out)@ + status_line(status, reason@),
{
    push_all(out, "HTTP/1.1 ".as_bytes());
    push_dec(out, status as u64);
    push_all(out, " ".as_bytes());
    push_all(out, reason.as_bytes());
    push_all(out, "\r\n".as_bytes());
    assert(out@ =~= old(out)@ + status_line(status, reason@));
}

/// The head of a response that is streamed to the guest.
pub fn encode_response_head(status: u16, headers: &[(String, String)]) -> (out: Vec<u8>)
    ensures
        out@ == response_head(status, header_view(headers@)),
{
    let ghost view = header_view(headers@);
    let mut out: Vec<u8> = Vec::new();
    push_status_line(&mut out, status, reason_phrase(status));
    let ghost line = status_line(status, phrase(status)@);
    assert(out@ =~= line + header_lines(view, 0));
    let mut i: usize = 0;
    while i < headers.len()
        invariant
            i <= headers@.len(),
            view == header_view(headers@),
            out@ == line + header_lines(view, i as int),
        decreases headers@.len() - i,
    {
        let ghost before = out@;
        assert(view[i as int] == (headers@[i as int].0@, headers@[i as int].1@));
        let name: Vec<char> = chars_of(headers[i].0.as_str());
        let low: Vec<char> = to_lower(name.as_slice());
        if !is_hop_by_hop(low.as_slice()) && !is_text(low.as_slice(), "content-length")
            && !is_text(low.as_slice(), "content-encoding") {
            push_all(&mut out, headers[i].0.as_str().as_bytes());
            push_all(&mut out, ": ".as_bytes());
            push_all(&mut out, headers[i].1.as_str().as_bytes());
            push_all(&mut out, "\r\n".as_bytes());
            assert(out@ =~= before + (encode_utf8(view[i as int].0) + ": ".spec_bytes()
                + encode_utf8(view[i as int].1) + "\r\n".spec_bytes()));
            assert(out@ =~= line + header_lines(view, i + 1));
        }
        i = i + 1;
    }
    push_all(&mut out, "Connection: close\r\n\r\n".as_bytes());
    out
}

fn encode_sized_head(status: u16, reason: &str, kind: &str, len: usize) -> (out: Vec<u8>)
    ensures
        out@ == sized_head(status, reason@, kind, len as nat),
{
    let mut out: Vec<u8> = Vec::new();
    push_status_line(&mut out, status, reason);
    assert(out@ =~= status_line(status, reason@));
    push_all(&mut out, "Content-Type: ".as_bytes());
    push_all(&mut out, kind.as_bytes());
    push_all(&mut out, "\r\nContent-Length: ".as_bytes());
    push_dec(&mut out, len as u64);
    push_all(&mut out, "\r\nConnection: close\r\n\r\n".as_bytes());
    out
}

fn encode_error_body(status: u16, reason: &str, detail: &str) -> (out: Vec<u8>)
    ensures
        out@ == error_body(status, reason@, detail@),
{
    let mut out: Vec<u8> = Vec::new();
    push_dec(&mut out, status as u64);
    assert(out@ =~= dec_text(status as nat));
    push_all(&mut out, " ".as_bytes());
    push_all(&mut out, reason.as_bytes());
    push_all(&mut out, ": ".as_bytes());
    push_all(&mut out, detail.as_bytes());
    push_all(&mut out, "\n".as_bytes());
    out
}

// ---- state ---------------------------------------------------------------

/// One guest connection.
pub struct ConnBuf {
    /// Bytes received but not yet forming a complete request.
    buf: Vec<u8>,
    /// Set once the request has been submitted, so later bytes are ignored
    /// rather than parsed as a second pipelined request.
    submitted: bool,
    /// Set once the response head has gone out. After that the status is
    /// committed: a mid-stream failure can only truncate, not become a 502.
    head_sent: bool,
    /// Set after a successful CONNECT response. Network bytes flow into a TLS
    /// session and all response bytes flow back through it.
    tls: bool,
}

/// The state of a [`ConnBuf`].
#[verifier::ext_equal]
pub struct ConnView {
    pub buf: Seq<u8>,
    pub submitted: bool,
    pub head_sent: bool,
    pub tls: bool,
}

impl View for ConnBuf {
    type V = ConnView;

    closed spec fn view(&self) -> ConnView {
        ConnView {
            buf: self.buf@,
            submitted: self.submitted,
            head_sent: self.head_sent,
            tls: self.tls,
        }
    }
}

/// A proxy.
pub struct Proxy {
    conns: HashMap<u64, ConnBuf>,
    /// In-flight request id -> the connection waiting for it.
    inflight: HashMap<u64, u64>,
    next_req: u64,
    /// Rewrite `http://` to `https://` on egress.
    upgrade_scheme: bool,
    requests: u64,
}

/// The state of a [`Proxy`].
#[verifier::ext_equal]
pub struct ProxyView {
    pub conns: Map<u64, ConnView>,
    pub inflight: Map<u64, u64>,
    pub next_req: u64,
    pub upgrade: bool,
    pub requests: u64,
}

impl View for Proxy {
    type V = ProxyView;

    closed spec fn view(&self) -> ProxyView {
        ProxyView {
            conns: self.conns@.map_values(|c: ConnBuf| c@),
            inflight: self.inflight@,
            next_req: self.next_req,
            upgrade: self.upgrade_scheme,
            requests: self.requests,
        }
    }
}

/// What the embedding does for the proxy.
pub enum ProxyAction {
    /// Send bytes to the guest, through the connection's TLS session if it has
    /// one.
    Send(u64, Vec<u8>),
    /// Send bytes to the guest as they are, ahead of the connection's TLS
    /// session.
    SendRaw(u64, Vec<u8>),
    /// Close a connection. The TLS session says so first where the flag is set.
    Close(u64, bool),
    /// Perform a request.
    Submit(u64, Request),
    /// Create a TLS session for this host, and report whether that worked.
    OpenTunnel(u64, String),
    /// Feed bytes to the connection's TLS session, and report the plaintext.
    Decrypt(u64, Vec<u8>),
    /// Report the CA certificate for this connection.
    ServeCa(u64),
}

/// What a [`ProxyAction`] asks for.
pub enum ActionView {
    Send(u64, Seq<u8>),
    SendRaw(u64, Seq<u8>),
    Close(u64, bool),
    Submit(u64, RequestView),
    OpenTunnel(u64, Seq<char>),
    Decrypt(u64, Seq<u8>),
    ServeCa(u64),
}

impl View for ProxyAction {
    type V = ActionView;

    open spec fn view(&self) -> ActionView {
        match *self {
            ProxyAction::Send(id, bytes) => ActionView::Send(id, bytes@),
            ProxyAction::SendRaw(id, bytes) => ActionView::SendRaw(id, bytes@),
            ProxyAction::Close(id, notify) => ActionView::Close(id, notify),
            ProxyAction::Submit(id, request) => ActionView::Submit(id, request@),
            ProxyAction::OpenTunnel(id, host) => ActionView::OpenTunnel(id, host@),
            ProxyAction::Decrypt(id, bytes) => ActionView::Decrypt(id, bytes@),
            ProxyAction::ServeCa(id) => ActionView::ServeCa(id),
        }
    }
}

/// What several actions ask for.
pub open spec fn actions(v: Seq<ProxyAction>) -> Seq<ActionView> {
    v.map_values(|a: ProxyAction| a@)
}

/// A proxy, and what it asks for.
#[verifier::ext_equal]
pub struct ProxyStep {
    pub proxy: ProxyView,
    pub actions: Seq<ActionView>,
}

impl ProxyView {
    /// A proxy without connections.
    pub open spec fn fresh() -> ProxyView {
        ProxyView {
            conns: Map::empty(),
            inflight: Map::empty(),
            next_req: 1,
            upgrade: true,
            requests: 0,
        }
    }

    /// Nothing happens.
    pub open spec fn idle(self) -> ProxyStep {
        ProxyStep { proxy: self, actions: Seq::empty() }
    }

    /// The proxy with a connection in another state.
    pub open spec fn with_conn(self, id: u64, conn: ConnView) -> ProxyView {
        ProxyView { conns: self.conns.insert(id, conn), ..self }
    }

    /// Bytes for a connection. One that is gone gets none.
    pub open spec fn sends(self, id: u64, bytes: Seq<u8>) -> Seq<ActionView> {
        if self.conns.contains_key(id) {
            seq![ActionView::Send(id, bytes)]
        } else {
            Seq::empty()
        }
    }

    /// A connection is answered with an error and closed.
    pub open spec fn refused(
        self,
        id: u64,
        status: u16,
        reason: Seq<char>,
        detail: Seq<char>,
    ) -> ProxyStep {
        let body = error_body(status, reason, detail);
        ProxyStep {
            proxy: ProxyView { conns: self.conns.remove(id), ..self },
            actions: self.sends(id, sized_head(status, reason, "text/plain", body.len()))
                + self.sends(id, body) + seq![ActionView::Close(id, true)],
        }
    }

    /// The guest opened a connection.
    pub open spec fn opened(self, id: u64) -> ProxyView {
        self.with_conn(
            id,
            ConnView { buf: Seq::empty(), submitted: false, head_sent: false, tls: false },
        )
    }

    /// The guest closed a connection. An in-flight request stays: its response
    /// is simply dropped when it arrives, since the guest is gone.
    pub open spec fn closed(self, id: u64) -> ProxyView {
        ProxyView { conns: self.conns.remove(id), ..self }
    }

    /// Whether a request is for the proxy's own CA certificate.
    pub open spec fn asks_for_ca(request: RequestView) -> bool {
        lowered(request.method) == lowered("GET"@) && (request.url == CA_URL_HTTP@ || request.url
            == CA_URL_HTTPS@)
    }

    /// The buffered bytes of a connection are looked at: a complete request is
    /// submitted. An origin-form request decrypted from CONNECT is HTTPS even
    /// when egress preserves ordinary http:// proxy requests.
    pub open spec fn looked_at(self, id: u64) -> ProxyStep {
        if !self.conns.contains_key(id) || self.conns[id].submitted {
            self.idle()
        } else {
            let conn = self.conns[id];
            match proxy_request(conn.buf, conn.tls || self.upgrade) {
                Ok(None) => self.idle(),
                Ok(Some(request)) => if ProxyView::asks_for_ca(request) {
                    ProxyStep { proxy: self, actions: seq![ActionView::ServeCa(id)] }
                } else {
                    let next = vstd::wrapping::u64_specs::wrapping_add(self.next_req, 1);
                    ProxyStep {
                        proxy: ProxyView {
                            conns: self.conns.insert(id, ConnView { submitted: true, ..conn }),
                            inflight: self.inflight.insert(self.next_req, id),
                            next_req: next,
                            requests: vstd::wrapping::u64_specs::wrapping_add(self.requests, 1),
                            ..self
                        },
                        actions: seq![ActionView::Submit(self.next_req, request)],
                    }
                },
                Err(e) => self.refused(id, e.status, e.reason@, e.detail@),
            }
        }
    }

    /// Bytes arrived for a connection in the clear, from the wire or from its
    /// TLS session, and are within what the proxy buffers.
    pub open spec fn buffered(self, id: u64, bytes: Seq<u8>) -> ProxyView {
        self.with_conn(
            id,
            ConnView { buf: self.conns[id].buf + bytes, ..self.conns[id] },
        )
    }

    /// Whether a connection buffers more than the proxy allows.
    pub open spec fn over_limit(self, id: u64) -> bool {
        self.conns[id].buf.len() > MAX_HEAD + MAX_BODY
    }

    /// The guest sent bytes on a connection.
    pub open spec fn received(self, id: u64, bytes: Seq<u8>) -> ProxyStep {
        if !self.conns.contains_key(id) {
            self.idle()
        } else if self.conns[id].tls {
            ProxyStep { proxy: self, actions: seq![ActionView::Decrypt(id, bytes)] }
        } else if self.conns[id].submitted {
            self.idle()
        } else {
            let with = self.buffered(id, bytes);
            if with.over_limit(id) {
                with.refused(id, 413, "Payload Too Large"@, "request too large"@)
            } else {
                match connect_request(with.conns[id].buf) {
                    Ok(Some((host, end))) => ProxyStep {
                        proxy: with,
                        actions: seq![ActionView::OpenTunnel(id, host)],
                    },
                    Ok(None) => with.looked_at(id),
                    Err(e) => with.refused(id, e.status, e.reason@, e.detail@),
                }
            }
        }
    }

    /// The embedding created the TLS session that a CONNECT asked for, or could
    /// not. Bytes behind the CONNECT head are the first of the tunnel.
    pub open spec fn tunneled(self, id: u64, failure: Option<Seq<char>>) -> ProxyStep {
        match failure {
            Some(error) => self.refused(id, 500, "Internal Server Error"@, error),
            None => if !self.conns.contains_key(id) {
                self.idle()
            } else {
                let conn = self.conns[id];
                let trailing = match connect_request(conn.buf) {
                    Ok(Some((host, end))) => conn.buf.subrange(end, conn.buf.len() as int),
                    _ => Seq::empty(),
                };
                ProxyStep {
                    proxy: self.with_conn(
                        id,
                        ConnView { buf: Seq::empty(), tls: true, ..conn },
                    ),
                    actions: seq![
                        ActionView::SendRaw(
                            id,
                            "HTTP/1.1 200 Connection Established\r\n\r\n".spec_bytes(),
                        ),
                    ] + if trailing.len() > 0 {
                        seq![ActionView::Decrypt(id, trailing)]
                    } else {
                        Seq::empty()
                    },
                }
            },
        }
    }

    /// The connection's TLS session gave plaintext, or failed.
    pub open spec fn decrypted(self, id: u64, plaintext: Option<Seq<u8>>) -> ProxyStep {
        match plaintext {
            None => ProxyStep {
                proxy: ProxyView { conns: self.conns.remove(id), ..self },
                actions: seq![ActionView::Close(id, false)],
            },
            Some(bytes) => if bytes.len() == 0 || !self.conns.contains_key(id) {
                self.idle()
            } else {
                let with = self.buffered(id, bytes);
                if with.over_limit(id) {
                    with.refused(id, 413, "Payload Too Large"@, "request too large"@)
                } else {
                    with.looked_at(id)
                }
            },
        }
    }

    /// The CA certificate is served, or could not be made.
    pub open spec fn ca_served(self, id: u64, der: Result<Seq<u8>, Seq<char>>) -> ProxyStep {
        match der {
            Err(error) => self.refused(id, 500, "Internal Server Error"@, error),
            Ok(bytes) => ProxyStep {
                proxy: ProxyView { conns: self.conns.remove(id), ..self },
                actions: self.sends(
                    id,
                    sized_head(200, "OK"@, "application/pkix-cert", bytes.len()),
                ) + self.sends(id, bytes) + seq![ActionView::Close(id, false)],
            },
        }
    }

    /// Egress made progress on a request. The guest may have gone away
    /// mid-response; what still arrives for it is discarded. A failure before
    /// the response head becomes a 502; after it, it can only cut the body
    /// short.
    pub open spec fn completed(self, completion: Completion) -> ProxyStep {
        let request = completion.request();
        if !self.inflight.contains_key(request) {
            self.idle()
        } else {
            let id = self.inflight[request];
            let done = ProxyView { inflight: self.inflight.remove(request), ..self };
            match completion {
                Completion::Head { status, headers, .. } => ProxyStep {
                    proxy: if self.conns.contains_key(id) {
                        self.with_conn(id, ConnView { head_sent: true, ..self.conns[id] })
                    } else {
                        self
                    },
                    actions: self.sends(id, response_head(status, header_view(headers@))),
                },
                Completion::Body { bytes, .. } => ProxyStep {
                    proxy: self,
                    actions: self.sends(id, bytes@),
                },
                Completion::End { .. } => ProxyStep {
                    proxy: ProxyView { conns: self.conns.remove(id), ..done },
                    actions: seq![ActionView::Close(id, true)],
                },
                Completion::Failed { error, .. } => if self.conns.contains_key(id)
                    && self.conns[id].head_sent {
                    ProxyStep {
                        proxy: ProxyView { conns: self.conns.remove(id), ..done },
                        actions: seq![ActionView::Close(id, false)],
                    }
                } else {
                    done.refused(id, 502, "Bad Gateway"@, error@)
                },
            }
        }
    }
}

impl Default for Proxy {
    fn default() -> (proxy: Proxy)
        ensures
            proxy@ == ProxyView::fresh(),
    {
        Proxy::new()
    }
}

impl Proxy {
    /// A proxy without connections.
    pub fn new() -> (proxy: Proxy)
        ensures
            proxy@ == ProxyView::fresh(),
    {
        let proxy = Proxy {
            conns: HashMap::new(),
            inflight: HashMap::new(),
            next_req: 1,
            // On by default because a page served over https cannot fetch
            // http:// at all — the browser blocks it as mixed content — and
            // essentially every host worth reaching is https anyway. This also
            // maps decrypted CONNECT requests back to https:// fetch egress.
            upgrade_scheme: true,
            requests: 0,
        };
        assert(proxy@.conns =~= Map::empty());
        proxy
    }

    /// Leave the guest's scheme alone. Only useful when egress genuinely wants
    /// plaintext, e.g. a test server or a page served over http.
    pub fn keep_scheme(self) -> (proxy: Proxy)
        ensures
            proxy@ == (ProxyView { upgrade: false, ..self@ }),
    {
        Proxy {
            conns: self.conns,
            inflight: self.inflight,
            next_req: self.next_req,
            upgrade_scheme: false,
            requests: self.requests,
        }
    }

    /// Requests submitted since start, for status reporting.
    pub fn request_count(&self) -> (n: u64)
        ensures
            n == self@.requests,
    {
        self.requests
    }

    /// Whether a connection has a TLS session.
    pub fn is_tunnel(&self, id: u64) -> (tls: bool)
        ensures
            tls == (self@.conns.contains_key(id) && self@.conns[id].tls),
    {
        match self.conns.get(&id) {
            Some(conn) => conn.tls,
            None => false,
        }
    }

    fn put(&mut self, id: u64, conn: ConnBuf)
        ensures
            final(self)@ == old(self)@.with_conn(id, conn@),
    {
        self.conns.insert(id, conn);
        assert(self@.conns =~= old(self)@.conns.insert(id, conn@));
    }

    fn take(&mut self, id: u64) -> (conn: Option<ConnBuf>)
        ensures
            final(self)@ == (ProxyView { conns: old(self)@.conns.remove(id), ..old(self)@ }),
            conn is Some <==> old(self)@.conns.contains_key(id),
            conn matches Some(c) ==> c@ == old(self)@.conns[id],
    {
        let conn = self.conns.remove(&id);
        assert(self@.conns =~= old(self)@.conns.remove(id));
        conn
    }

    fn send(&self, id: u64, bytes: Vec<u8>, out: &mut Vec<ProxyAction>)
        ensures
            actions(final(out)@) == actions(old(out)@) + self@.sends(id, bytes@),
    {
        if self.conns.contains_key(&id) {
            out.push(ProxyAction::Send(id, bytes));
        }
        assert(actions(out@) =~= actions(old(out)@) + self@.sends(id, bytes@));
    }

    fn refuse(&mut self, id: u64, status: u16, reason: &str, detail: &str) -> (out: Vec<
        ProxyAction,
    >)
        ensures
            (ProxyStep { proxy: final(self)@, actions: actions(out@) }) == old(self)@.refused(
                id,
                status,
                reason@,
                detail@,
            ),
    {
        let mut out: Vec<ProxyAction> = Vec::new();
        let body: Vec<u8> = encode_error_body(status, reason, detail);
        let head: Vec<u8> = encode_sized_head(status, reason, "text/plain", body.len());
        self.send(id, head, &mut out);
        self.send(id, body, &mut out);
        let ghost sent = actions(out@);
        self.take(id);
        out.push(ProxyAction::Close(id, true));
        assert(actions(out@) =~= sent + seq![ActionView::Close(id, true)]);
        out
    }

    fn refuse_parse(&mut self, id: u64, e: ParseError) -> (out: Vec<ProxyAction>)
        ensures
            (ProxyStep { proxy: final(self)@, actions: actions(out@) }) == old(self)@.refused(
                id,
                e.status,
                e.reason@,
                e.detail@,
            ),
    {
        self.refuse(id, e.status, e.reason, e.detail)
    }

    /// The guest opened a connection.
    pub fn on_opened(&mut self, id: u64)
        ensures
            final(self)@ == old(self)@.opened(id),
    {
        let conn = ConnBuf { buf: Vec::new(), submitted: false, head_sent: false, tls: false };
        self.put(id, conn);
    }

    /// The guest closed a connection.
    pub fn on_closed(&mut self, id: u64)
        ensures
            final(self)@ == old(self)@.closed(id),
    {
        self.take(id);
    }

    /// The guest sent bytes on a connection.
    pub fn on_data(&mut self, id: u64, bytes: Vec<u8>) -> (out: Vec<ProxyAction>)
        ensures
            (ProxyStep { proxy: final(self)@, actions: actions(out@) }) == old(self)@.received(
                id,
                bytes@,
            ),
    {
        let (tls, submitted) = match self.conns.get(&id) {
            Some(conn) => (conn.tls, conn.submitted),
            None => {
                return none();
            },
        };
        if tls {
            return one(ProxyAction::Decrypt(id, bytes));
        }
        if submitted {
            return none();  // one request per connection
        }
        let over = self.append(id, bytes.as_slice());
        if over {
            return self.refuse(id, 413, "Payload Too Large", "request too large");
        }
        let connect = match self.conns.get(&id) {
            Some(conn) => parse_connect(conn.buf.as_slice()),
            None => Ok(None),
        };
        match connect {
            Ok(Some((host, _))) => one(ProxyAction::OpenTunnel(id, host)),
            Ok(None) => self.submit_buffered_request(id),
            Err(e) => self.refuse_parse(id, e),
        }
    }

    /// Append bytes to a connection's buffer. Returns whether it is over the
    /// limit.
    fn append(&mut self, id: u64, bytes: &[u8]) -> (over: bool)
        requires
            old(self)@.conns.contains_key(id),
        ensures
            final(self)@ == old(self)@.buffered(id, bytes@),
            over == final(self)@.over_limit(id),
    {
        let ghost before = self@;
        match self.take(id) {
            Some(conn) => {
                let mut conn = conn;
                push_all(&mut conn.buf, bytes);
                let over = conn.buf.len() > MAX_HEAD + MAX_BODY;
                self.put(id, conn);
                assert(self@.conns =~= before.buffered(id, bytes@).conns);
                over
            },
            None => false,
        }
    }

    fn submit_buffered_request(&mut self, id: u64) -> (out: Vec<ProxyAction>)
        ensures
            (ProxyStep { proxy: final(self)@, actions: actions(out@) }) == old(self)@.looked_at(
                id,
            ),
    {
        let parsed = match self.conns.get(&id) {
            None => {
                return none();
            },
            Some(conn) => {
                if conn.submitted {
                    return none();
                }
                parse_request(conn.buf.as_slice(), conn.tls || self.upgrade_scheme)
            },
        };
        match parsed {
            Ok(None) => none(),  // still arriving
            Ok(Some(req)) => {
                let method: Vec<char> = chars_of(req.method.as_str());
                let url: Vec<char> = chars_of(req.url.as_str());
                if is_text_ignoring_case(method.as_slice(), "GET") && (is_text(
                    url.as_slice(),
                    CA_URL_HTTP,
                ) || is_text(url.as_slice(), CA_URL_HTTPS)) {
                    return one(ProxyAction::ServeCa(id));
                }
                let ghost before = self@;
                if let Some(conn) = self.take(id) {
                    let mut conn = conn;
                    conn.submitted = true;
                    self.put(id, conn);
                    assert(self@.conns =~= before.conns.insert(id, conn@));
                }
                let req_id: u64 = self.next_req;
                self.next_req = self.next_req.wrapping_add(1);
                self.requests = self.requests.wrapping_add(1);
                self.inflight.insert(req_id, id);
                one(ProxyAction::Submit(req_id, req))
            },
            Err(e) => self.refuse_parse(id, e),
        }
    }

    /// The embedding created the TLS session that a CONNECT asked for, or could
    /// not.
    pub fn on_tunnel(&mut self, id: u64, failure: Option<String>) -> (out: Vec<ProxyAction>)
        ensures
            (ProxyStep { proxy: final(self)@, actions: actions(out@) }) == old(self)@.tunneled(
                id,
                match failure {
                    Some(error) => Some(error@),
                    None => None,
                },
            ),
    {
        if let Some(error) = failure {
            return self.refuse(id, 500, "Internal Server Error", error.as_str());
        }
        let ghost before = self@;
        match self.take(id) {
            None => {
                assert(self@.conns =~= before.conns);
                none()
            },
            Some(conn) => {
                let mut conn = conn;
                let trailing: Vec<u8> = match parse_connect(conn.buf.as_slice()) {
                    Ok(Some((_, end))) => copy_range(conn.buf.as_slice(), end, conn.buf.len()),
                    _ => Vec::new(),
                };
                conn.buf = Vec::new();
                conn.tls = true;
                self.put(id, conn);
                assert(self@.conns =~= before.conns.insert(id, conn@));
                let mut hello: Vec<u8> = Vec::new();
                push_all(
                    &mut hello,
                    "HTTP/1.1 200 Connection Established\r\n\r\n".as_bytes(),
                );
                assert(hello@ =~= "HTTP/1.1 200 Connection Established\r\n\r\n".spec_bytes());
                let mut out: Vec<ProxyAction> = one(ProxyAction::SendRaw(id, hello));
                let ghost first = actions(out@);
                if trailing.len() > 0 {
                    out.push(ProxyAction::Decrypt(id, trailing));
                    assert(actions(out@) =~= first + seq![ActionView::Decrypt(id, trailing@)]);
                } else {
                    assert(actions(out@) =~= first + Seq::empty());
                }
                out
            },
        }
    }

    /// The connection's TLS session gave plaintext, or failed.
    pub fn on_plaintext(&mut self, id: u64, plaintext: Option<Vec<u8>>) -> (out: Vec<ProxyAction>)
        ensures
            (ProxyStep { proxy: final(self)@, actions: actions(out@) }) == old(self)@.decrypted(
                id,
                match plaintext {
                    Some(bytes) => Some(bytes@),
                    None => None,
                },
            ),
    {
        match plaintext {
            None => {
                self.take(id);
                one(ProxyAction::Close(id, false))
            },
            Some(bytes) => {
                if bytes.len() == 0 || !self.conns.contains_key(&id) {
                    return none();
                }
                let over = self.append(id, bytes.as_slice());
                if over {
                    return self.refuse(id, 413, "Payload Too Large", "request too large");
                }
                self.submit_buffered_request(id)
            },
        }
    }

    /// Serve the CA certificate, or say that it could not be made.
    pub fn on_ca(&mut self, id: u64, der: Result<Vec<u8>, String>) -> (out: Vec<ProxyAction>)
        ensures
            (ProxyStep { proxy: final(self)@, actions: actions(out@) }) == old(self)@.ca_served(
                id,
                match der {
                    Ok(bytes) => Ok(bytes@),
                    Err(error) => Err(error@),
                },
            ),
    {
        match der {
            Err(error) => self.refuse(id, 500, "Internal Server Error", error.as_str()),
            Ok(bytes) => {
                let mut out: Vec<ProxyAction> = Vec::new();
                let head: Vec<u8> = encode_sized_head(
                    200,
                    "OK",
                    "application/pkix-cert",
                    bytes.len(),
                );
                self.send(id, head, &mut out);
                self.send(id, bytes, &mut out);
                let ghost sent = actions(out@);
                self.take(id);
                out.push(ProxyAction::Close(id, false));
                assert(actions(out@) =~= sent + seq![ActionView::Close(id, false)]);
                out
            },
        }
    }

    /// Egress made progress on a request.
    pub fn on_completion(&mut self, completion: Completion) -> (out: Vec<ProxyAction>)
        ensures
            (ProxyStep { proxy: final(self)@, actions: actions(out@) }) == old(self)@.completed(
                completion,
            ),
    {
        let request: u64 = completion.id();
        // The guest may have gone away mid-response; its entry is dropped
        // and anything still arriving for it is discarded.
        let conn: u64 = match self.inflight.get(&request) {
            Some(conn) => *conn,
            None => {
                return none();
            },
        };
        match completion {
            Completion::Head { status, headers, .. } => {
                let mut out: Vec<ProxyAction> = Vec::new();
                let head: Vec<u8> = encode_response_head(status, headers.as_slice());
                self.send(conn, head, &mut out);
                assert(actions(out@) =~= old(self)@.sends(conn, head@));
                let ghost before = self@;
                if let Some(state) = self.take(conn) {
                    let mut state = state;
                    state.head_sent = true;
                    self.put(conn, state);
                    assert(self@.conns =~= before.conns.insert(conn, state@));
                } else {
                    assert(self@.conns =~= before.conns);
                }
                out
            },
            Completion::Body { bytes, .. } => {
                let mut out: Vec<ProxyAction> = Vec::new();
                self.send(conn, bytes, &mut out);
                assert(actions(out@) =~= old(self)@.sends(conn, bytes@));
                out
            },
            Completion::End { id } => {
                self.inflight.remove(&id);
                self.take(conn);
                one(ProxyAction::Close(conn, true))
            },
            Completion::Failed { id, error } => {
                self.inflight.remove(&id);
                let head_sent = match self.conns.get(&conn) {
                    Some(state) => state.head_sent,
                    None => false,
                };
                if head_sent {
                    // The status line is already committed upstream of us,
                    // so all we can do is cut the body short; the guest
                    // sees a truncated response, which is what a real
                    // connection failure looks like.
                    self.take(conn);
                    one(ProxyAction::Close(conn, false))
                } else {
                    self.refuse(conn, 502, "Bad Gateway", error.as_str())
                }
            },
        }
    }
}

fn none() -> (out: Vec<ProxyAction>)
    ensures
        actions(out@) == Seq::<ActionView>::empty(),
{
    let out: Vec<ProxyAction> = Vec::new();
    assert(actions(out@) =~= Seq::<ActionView>::empty());
    out
}

fn one(action: ProxyAction) -> (out: Vec<ProxyAction>)
    ensures
        actions(out@) == seq![action@],
{
    let mut out: Vec<ProxyAction> = Vec::new();
    out.push(action);
    assert(actions(out@) =~= seq![action@]);
    out
}

// ---- laws ----------------------------------------------------------------

/// One request per connection: once a request is submitted, nothing more that
/// arrives on the connection submits another.
pub proof fn law_one_request_per_connection(proxy: ProxyView, id: u64, bytes: Seq<u8>)
    requires
        proxy.conns.contains_key(id),
        proxy.conns[id].submitted,
    ensures
        forall|i: int|
            0 <= i < proxy.received(id, bytes).actions.len() ==> !(#[trigger] proxy.received(
                id,
                bytes,
            ).actions[i] is Submit),
        forall|i: int|
            0 <= i < proxy.decrypted(id, Some(bytes)).actions.len() ==> !(
            #[trigger] proxy.decrypted(id, Some(bytes)).actions[i] is Submit),
{
}

/// A CONNECT opens a tunnel and is not submitted to egress.
pub proof fn law_connect_is_not_submitted(proxy: ProxyView, id: u64, bytes: Seq<u8>)
    requires
        proxy.conns.contains_key(id),
        !proxy.conns[id].tls,
        !proxy.conns[id].submitted,
        !proxy.buffered(id, bytes).over_limit(id),
        connect_request(proxy.conns[id].buf + bytes) matches Ok(Some(_)),
    ensures
        proxy.received(id, bytes).actions.len() == 1,
        proxy.received(id, bytes).actions[0] is OpenTunnel,
        proxy.received(id, bytes).proxy.inflight == proxy.inflight,
{
}

/// An egress failure becomes a 502 as long as the response head has not gone
/// out, and ends the request.
pub proof fn law_failure_becomes_502(proxy: ProxyView, request: u64, error: String)
    requires
        proxy.inflight.contains_key(request),
        proxy.conns.contains_key(proxy.inflight[request]),
        !proxy.conns[proxy.inflight[request]].head_sent,
    ensures
        ({
            let step = proxy.completed(Completion::Failed { id: request, error });
            let id = proxy.inflight[request];
            let body = error_body(502, "Bad Gateway"@, error@);
            &&& step.actions == seq![
                ActionView::Send(id, sized_head(502, "Bad Gateway"@, "text/plain", body.len())),
                ActionView::Send(id, body),
                ActionView::Close(id, true),
            ]
            &&& !step.proxy.inflight.contains_key(request)
            &&& !step.proxy.conns.contains_key(id)
        }),
{
    let step = proxy.completed(Completion::Failed { id: request, error });
    let id = proxy.inflight[request];
    let body = error_body(502, "Bad Gateway"@, error@);
    assert(step.actions =~= seq![
        ActionView::Send(id, sized_head(502, "Bad Gateway"@, "text/plain", body.len())),
        ActionView::Send(id, body),
        ActionView::Close(id, true),
    ]);
}

/// What arrives for a guest that has gone away is discarded: no bytes are sent
/// to a connection that is closed.
pub proof fn law_nothing_is_sent_to_a_closed_connection(
    proxy: ProxyView,
    id: u64,
    completion: Completion,
)
    requires
        proxy.inflight.contains_key(completion.request()),
        proxy.inflight[completion.request()] == id,
    ensures
        forall|i: int|
            0 <= i < proxy.closed(id).completed(completion).actions.len() ==> !(
            #[trigger] proxy.closed(id).completed(completion).actions[i] is Send),
{
}

} // verus!
