//! The guest's way to the network: requests, the proxy, egress and the relay.

use rv64_system::egress::{
    completions, dechunk, encode_upstream_head, parse_response, split_url, Target,
};
use rv64_system::http::{
    decode_chunked_body, find_crlf, find_head_end, parse_connect, parse_request, ParseError, MAX_BODY,
    MAX_HEAD,
};
use rv64_system::proxy::{encode_response_head, Proxy, ProxyAction, CA_URL_HTTP};
use rv64_system::wire::{decode_head, encode_head, Completion, Egress, ReqId, Request, Response};
use rv64_system::ws::{
    accept_key, base64, check_upgrade, encode_control, encode_frame, fallback_bytes,
    handshake_read, parse_relay_url, sha1, upgrade_request, HandshakeRead, RelayState, PONG,
};

// ---- egress ----

#[test]
fn splits_urls() {
    assert_eq!(
        split_url("http://example.test/a/b?c=1").unwrap(),
        Target {
            tls: false,
            host: "example.test".into(),
            authority: "example.test".into(),
            port: 80,
            path: "/a/b?c=1".into(),
        }
    );
    assert_eq!(
        split_url("https://127.0.0.1:8443?probe=1").unwrap(),
        Target {
            tls: true,
            host: "127.0.0.1".into(),
            authority: "127.0.0.1:8443".into(),
            port: 8443,
            path: "/?probe=1".into(),
        }
    );
    assert!(split_url("ftp://example.test/").is_err());
}

#[test]
fn parses_a_content_length_response() {
    let raw = b"HTTP/1.1 201 Created\r\nContent-Length: 5\r\nX-A: b\r\n\r\nhello";
    let r = parse_response(raw).unwrap();
    assert_eq!(r.status, 201);
    assert_eq!(r.body, b"hello");
    assert!(r.headers.contains(&("X-A".into(), "b".into())));
}

#[test]
fn parses_a_chunked_response() {
    let raw = b"HTTP/1.1 200 OK\r\nTransfer-Encoding: chunked\r\n\r\n\
                5\r\nhello\r\n7\r\n, world\r\n0\r\n\r\n";
    let r = parse_response(raw).unwrap();
    assert_eq!(r.body, b"hello, world");
}

#[test]
fn reads_a_close_delimited_response() {
    // No length and no chunking: the body is everything up to EOF.
    let raw = b"HTTP/1.1 200 OK\r\nContent-Type: text/plain\r\n\r\nbody to eof";
    assert_eq!(parse_response(raw).unwrap().body, b"body to eof");
}

#[test]
fn refuses_malformed_urls_and_responses() {
    for (url, error) in [
        ("ftp://h/", "native egress requires http:// or https://, got ftp://h/"),
        ("http://", "invalid authority in http://"),
    ] {
        assert_eq!(split_url(url).unwrap_err(), error);
    }
    assert!(split_url("http://h:0x50/").is_err());
    assert_eq!(split_url("http://[::1]:8080/x").unwrap().port, 8080);
    assert!(parse_response(b"HTTP/1.1 200 OK\r\n").is_err());
    assert!(parse_response(b"HTTP/1.1 abc OK\r\n\r\n").is_err());
    let short = parse_response(b"HTTP/1.1 200 OK\r\nContent-Length: 9\r\n\r\nshort").unwrap();
    assert_eq!(short.body, b"short");
    assert!(dechunk(b"5\r\nhel").is_err());
    assert_eq!(dechunk(b"3\r\nabc\r\n0\r\n\r\n").unwrap(), b"abc");
}

#[test]
fn the_upstream_head_names_the_host_and_closes() {
    let request = Request {
        method: "POST".into(),
        url: "http://h:81/x".into(),
        headers: vec![("Host".into(), "other".into()), ("X-A".into(), "b".into())],
        body: b"abc".to_vec(),
    };
    let target = split_url(&request.url).unwrap();
    let head = String::from_utf8(encode_upstream_head(&request, &target)).unwrap();
    assert!(head.starts_with("POST /x HTTP/1.1\r\nHost: h:81\r\n"), "{}", head);
    assert!(head.contains("X-A: b\r\n"));
    assert!(!head.contains("other"));
    assert!(head.ends_with("Content-Length: 3\r\nConnection: close\r\n\r\n"));
}

#[test]
fn outcomes_become_completions_in_order() {
    let done = completions(
        4,
        Ok(Response {
            status: 200,
            headers: vec![("A".into(), "b".into())],
            body: b"hi".to_vec(),
        }),
    );
    assert!(done.iter().all(|c| c.id() == 4));
    assert!(matches!(&done[0], Completion::Head { status: 200, .. }));
    assert!(matches!(done.last(), Some(Completion::End { .. })));
    let failed = completions(5, Err("gone".into()));
    assert_eq!(
        failed,
        vec![Completion::Failed {
            id: 5,
            error: "gone".into()
        }]
    );
}

// ---- requests ----

fn parse(raw: &str) -> Result<Option<Request>, ParseError> {
    parse_request(raw.as_bytes(), false)
}

#[test]
fn parses_an_absolute_uri_request() {
    let req = parse("GET http://api.example/v1/things?a=1 HTTP/1.1\r\nHost: api.example\r\nUser-Agent: Wget\r\n\r\n")
        .unwrap()
        .unwrap();
    assert_eq!(req.method, "GET");
    assert_eq!(req.url, "http://api.example/v1/things?a=1");
    // Host and User-Agent pass through; nothing hop-by-hop does.
    assert!(req.headers.contains(&("User-Agent".into(), "Wget".into())));
    assert!(req.body.is_empty());
}

#[test]
fn strips_hop_by_hop_headers() {
    let req = parse(
        "GET http://h/ HTTP/1.1\r\nHost: h\r\nProxy-Connection: keep-alive\r\n\
         Connection: keep-alive\r\nAccept-Encoding: gzip\r\nAccept: */*\r\n\r\n",
    )
    .unwrap()
    .unwrap();
    let names: Vec<String> = req.headers.iter().map(|(n, _)| n.to_lowercase()).collect();
    for banned in ["proxy-connection", "connection", "accept-encoding"] {
        assert!(
            !names.contains(&banned.to_string()),
            "{} must be stripped", banned
);
    }
    assert!(
        names.contains(&"accept".to_string()),
        "end-to-end headers stay"
    );
}

#[test]
fn waits_for_the_whole_head_and_body() {
    // Head split mid-way: nothing to submit yet.
    assert!(parse("GET http://h/ HTTP/1.1\r\nHost: h\r\n")
        .unwrap()
        .is_none());
    // Head complete but body outstanding.
    let partial = "POST http://h/x HTTP/1.1\r\nHost: h\r\nContent-Length: 11\r\n\r\nhello";
    assert!(parse(partial).unwrap().is_none());
    let whole = "POST http://h/x HTTP/1.1\r\nHost: h\r\nContent-Length: 11\r\n\r\nhello world";
    let req = parse(whole).unwrap().unwrap();
    assert_eq!(req.method, "POST");
    assert_eq!(req.body, b"hello world");
}

#[test]
fn decodes_a_chunked_request_body_incrementally() {
    let raw = "POST http://h/upload HTTP/1.1\r\n\
               Host: h\r\n\
               Content-Type: text/plain\r\n\
               Transfer-Encoding: chunked\r\n\r\n\
               4;name=value\r\nWiki\r\n\
               5\r\npedia\r\n\
               0\r\n\r\n";
    let head_end = find_head_end(raw.as_bytes()).unwrap();
    for cut in head_end..raw.len() {
        assert!(
            parse(&raw[..cut]).unwrap().is_none(),
            "request completed early at byte {}", cut
);
    }
    let req = parse(raw).unwrap().unwrap();
    assert_eq!(req.body, b"Wikipedia");
    assert!(req
        .headers
        .contains(&("Content-Type".into(), "text/plain".into())));
    assert!(!req.headers.iter().any(|(name, _)| {
        name.eq_ignore_ascii_case("transfer-encoding")
            || name.eq_ignore_ascii_case("content-length")
    }));
}

#[test]
fn rejects_ambiguous_or_malformed_chunk_framing() {
    for raw in [
        "POST http://h/ HTTP/1.1\r\nHost: h\r\nContent-Length: 1\r\nTransfer-Encoding: chunked\r\n\r\n0\r\n\r\n",
        "POST http://h/ HTTP/1.1\r\nHost: h\r\nTransfer-Encoding: gzip, chunked\r\n\r\n0\r\n\r\n",
        "POST http://h/ HTTP/1.1\r\nHost: h\r\nTransfer-Encoding: chunked\r\n\r\nnot-hex\r\n",
        "POST http://h/ HTTP/1.1\r\nHost: h\r\nTransfer-Encoding: chunked\r\n\r\n1\r\nx!\r\n",
    ] {
        assert!(parse(raw).is_err(), "must reject: {:?}", raw);
    }
    let trailers = "POST http://h/ HTTP/1.1\r\nHost: h\r\nTransfer-Encoding: chunked\r\n\r\n0\r\nDigest: value\r\n\r\n";
    let err = parse(trailers).expect_err("trailers are not representable");
    assert_eq!(err.status, 501);

    let declared_too_large = format!(
        "POST http://h/ HTTP/1.1\r\nHost: h\r\nTransfer-Encoding: chunked\r\n\r\n{:x}\r\n",
        MAX_BODY + 1
    );
    let err = parse(&declared_too_large)
        .expect_err("oversized declared chunk must fail before buffering it");
    assert_eq!(err.status, 413);
}

#[test]
fn accepts_origin_form_with_a_host_header() {
    let req = parse("GET /path HTTP/1.1\r\nHost: example.test\r\n\r\n")
        .unwrap()
        .unwrap();
    assert_eq!(req.url, "http://example.test/path");
}

#[test]
fn rejects_what_it_cannot_yet_do() {
    let err =
        parse("GET nonsense HTTP/1.1\r\n\r\n").expect_err("unproxyable target must be refused");
    assert_eq!(err.status, 400);
}

#[test]
fn parses_connect_authorities() {
    let request = b"CONNECT api.example:443 HTTP/1.1\r\nHost: api.example:443\r\n\r\n";
    let (host, used) = parse_connect(request).unwrap().unwrap();
    assert_eq!(host, "api.example");
    assert_eq!(used, request.len());

    let (host, _) = parse_connect(b"CONNECT 127.0.0.1:8443 HTTP/1.1\r\n\r\n")
        .unwrap()
        .unwrap();
    assert_eq!(host, "127.0.0.1");
    let err = parse_connect(b"CONNECT missing-port HTTP/1.1\r\n\r\n")
        .expect_err("CONNECT requires an authority port");
    assert_eq!(err.status, 400);
}

#[test]
fn upgrades_the_scheme_for_egress() {
    // A page served over https cannot fetch http://, so egress uses https.
    let req = parse_request(
        b"GET http://api.example/v1 HTTP/1.1\r\nHost: api.example\r\n\r\n",
        true,
    )
    .unwrap()
    .unwrap();
    assert_eq!(req.url, "https://api.example/v1");
    // An https target is left alone.
    let req = parse_request(
        b"GET https://api.example/v1 HTTP/1.1\r\nHost: api.example\r\n\r\n",
        true,
    )
    .unwrap()
    .unwrap();
    assert_eq!(req.url, "https://api.example/v1");
}

#[test]
fn the_ffi_wire_form_round_trips() {
    let req = Request {
        method: "POST".into(),
        url: "https://api.example/v1/chat".into(),
        headers: vec![
            ("Authorization".into(), "Bearer xyz".into()),
            ("Content-Type".into(), "application/json".into()),
        ],
        body: b"{\"a\":1}".to_vec(),
    };
    assert_eq!(Request::decode(&req.encode()).unwrap(), req);

    let headers = vec![
        ("Location".to_string(), "/things/1".to_string()),
        ("Content-Type".to_string(), "application/json".to_string()),
    ];
    let encoded = encode_head(201, &headers);
    assert_eq!(decode_head(&encoded).unwrap(), (201, headers));
    assert!(
        decode_head(&encoded[..3]).is_none(),
        "truncation is an error"
    );
    // Truncation is an error, never a panic or a half-parsed request.
    let encoded = req.encode();
    for cut in [0, 1, 4, 10, encoded.len() - 1] {
        assert!(Request::decode(&encoded[..cut]).is_none(), "cut at {}", cut
);
    }
}


#[test]
fn heads_and_bodies_have_limits() {
    let long = format!("GET http://h/ HTTP/1.1\r\nX: {}\r\n", "a".repeat(MAX_HEAD));
    assert_eq!(parse(&long).unwrap_err().status, 431);
    let large = format!(
        "POST http://h/ HTTP/1.1\r\nHost: h\r\nContent-Length: {}\r\n\r\n",
        MAX_BODY + 1
    );
    assert_eq!(parse(&large).unwrap_err().status, 413);
    let bad = "POST http://h/ HTTP/1.1\r\nHost: h\r\nContent-Length: x\r\n\r\n";
    assert_eq!(parse(bad).unwrap_err().status, 400);
    assert_eq!(decode_chunked_body(b"2\r\nab\r\n0\r\n\r\n", 0).unwrap().unwrap(), b"ab");
    assert!(decode_chunked_body(b"2\r\nab", 0).unwrap().is_none());
    assert!(decode_chunked_body(b"0\r\n\r\n", 6).unwrap().is_none());
    assert!(decode_chunked_body(b"0\r\n\r\n", usize::MAX).unwrap().is_none());
    assert_eq!(find_crlf(b"ab\r\n", 0), Some(2));
    assert_eq!(find_crlf(b"ab\r\n", 5), None);
}

#[test]
fn bytes_that_are_no_text_are_replaced() {
    let raw = b"GET http://h/ HTTP/1.1\r\nX-A: \xff\r\n\r\n";
    let req = parse_request(raw, false).unwrap().unwrap();
    assert!(req.headers.contains(&("X-A".into(), "\u{fffd}".into())));
}

// ---- the proxy ----

/// Egress that answers every request from a canned table, in the streamed
/// form real egress uses: head, then body chunks, then end.
#[derive(Default)]
struct FakeEgress {
    seen: Vec<Request>,
    done: Vec<Completion>,
    /// When set, fail instead of answering.
    fail: Option<String>,
    /// Split the body across this many Body completions.
    chunks: usize,
}

impl Egress for FakeEgress {
    fn submit(&mut self, id: ReqId, req: Request) {
        self.seen.push(req);
        if let Some(error) = self.fail.clone() {
            self.done.push(Completion::Failed { id, error });
            return;
        }
        self.done.push(Completion::Head {
            id,
            status: 200,
            headers: vec![("Content-Type".into(), "text/plain".into())],
        });
        let body = b"canned body";
        let chunks = self.chunks.max(1);
        for part in body.chunks(body.len().div_ceil(chunks)) {
            self.done.push(Completion::Body {
                id,
                bytes: part.to_vec(),
            });
        }
        self.done.push(Completion::End { id });
    }
    fn poll(&mut self) -> Vec<Completion> {
        std::mem::take(&mut self.done)
    }
}

/// Perform what the proxy asks for, until it asks for nothing more. Returns what
/// it wrote to the guest.
fn perform(proxy: &mut Proxy, actions: Vec<ProxyAction>, egress: &mut FakeEgress) -> Vec<u8> {
    let mut written = Vec::new();
    let mut waiting = actions;
    while !waiting.is_empty() {
        let mut next = Vec::new();
        for action in waiting {
            match action {
                ProxyAction::Send(_, bytes) | ProxyAction::SendRaw(_, bytes) => written.extend(bytes),
                ProxyAction::Close(_, _) => {}
                ProxyAction::Submit(id, request) => egress.submit(id, request),
                ProxyAction::OpenTunnel(id, _) => next.extend(proxy.on_tunnel(id, None)),
                ProxyAction::Decrypt(id, bytes) => next.extend(proxy.on_plaintext(id, Some(bytes))),
                ProxyAction::ServeCa(id) => next.extend(proxy.on_ca(id, Ok(vec![1, 2, 3]))),
            }
        }
        for completion in egress.poll() {
            next.extend(proxy.on_completion(completion));
        }
        waiting = next;
    }
    written
}

/// Drive a guest connection by hand and return what the proxy wrote.
fn round_trip(request: &str, egress: &mut FakeEgress) -> String {
    let mut proxy = Proxy::new().keep_scheme();
    proxy.on_opened(1);
    let actions = proxy.on_data(1, request.as_bytes().to_vec());
    String::from_utf8_lossy(&perform(&mut proxy, actions, egress)).into_owned()
}

#[test]
fn a_guest_request_reaches_egress_and_the_response_comes_back() {
    let mut egress = FakeEgress::default();
    let written = round_trip(
        "GET http://example.test/hello HTTP/1.1\r\nHost: example.test\r\n\r\n",
        &mut egress,
    );
    assert_eq!(egress.seen.len(), 1, "the request reached egress");
    assert_eq!(egress.seen[0].url, "http://example.test/hello");
    assert!(written.starts_with("HTTP/1.1 200 OK\r\n"), "got: {}", written
);
    assert!(written.contains("Connection: close\r\n"), "got: {}", written
);
    // No Content-Length: the body is delimited by the close, because fetch
    // decompresses transparently and the upstream length would be wrong.
    assert!(!written.contains("Content-Length"), "got: {}", written
);
    assert!(written.ends_with("canned body"), "got: {}", written
);
}

#[test]
fn a_chunked_guest_request_reaches_egress_dechunked() {
    let mut egress = FakeEgress::default();
    let written = round_trip(
        "POST http://example.test/upload HTTP/1.1\r\n\
         Host: example.test\r\n\
         Content-Type: text/plain\r\n\
         Transfer-Encoding: chunked\r\n\r\n\
         6\r\nhello \r\n\
         5\r\nworld\r\n\
         0\r\n\r\n",
        &mut egress,
    );
    assert_eq!(egress.seen.len(), 1);
    assert_eq!(egress.seen[0].body, b"hello world");
    assert!(!egress.seen[0]
        .headers
        .iter()
        .any(|(name, _)| name.eq_ignore_ascii_case("transfer-encoding")));
    assert!(written.starts_with("HTTP/1.1 200 OK\r\n"), "got: {}", written
);
}

#[test]
fn an_egress_failure_becomes_a_502() {
    let mut egress = FakeEgress {
        fail: Some("network unreachable".into()),
        ..Default::default()
    };
    let written = round_trip(
        "GET http://example.test/ HTTP/1.1\r\nHost: example.test\r\n\r\n",
        &mut egress,
    );
    assert!(
        written.starts_with("HTTP/1.1 502 Bad Gateway\r\n"),
        "got: {}", written
);
    // The guest gets to see why, rather than a bare reset.
    assert!(written.contains("network unreachable"), "got: {}", written
);
}

#[test]
fn connect_opens_a_tls_tunnel_without_submitting_it() {
    let mut egress = FakeEgress::default();
    let written = round_trip(
        "CONNECT api.example:443 HTTP/1.1\r\nHost: api.example:443\r\n\r\n",
        &mut egress,
    );
    assert_eq!(written, "HTTP/1.1 200 Connection Established\r\n\r\n");
    assert!(egress.seen.is_empty(), "nothing should have been submitted");
}

#[test]
fn a_request_in_pieces_is_submitted_once() {
    let mut egress = FakeEgress {
        chunks: 3,
        ..Default::default()
    };
    let mut proxy = Proxy::new();
    proxy.on_opened(1);
    let raw = b"GET http://h/ HTTP/1.1\r\nHost: h\r\n\r\n";
    let mut written = Vec::new();
    for byte in raw {
        let actions = proxy.on_data(1, vec![*byte]);
        written.extend(perform(&mut proxy, actions, &mut egress));
    }
    let actions = proxy.on_data(1, b"more".to_vec());
    written.extend(perform(&mut proxy, actions, &mut egress));
    assert_eq!(egress.seen.len(), 1);
    assert_eq!(egress.seen[0].url, "https://h/");
    assert_eq!(proxy.request_count(), 1);
    assert!(written.ends_with(b"canned body"));
}

#[test]
fn the_certificate_is_served_without_egress() {
    let mut egress = FakeEgress::default();
    let request = format!("GET {} HTTP/1.1\r\nHost: rv64-proxy.invalid\r\n\r\n", CA_URL_HTTP);
    let written = round_trip(&request, &mut egress);
    assert!(egress.seen.is_empty());
    assert!(written.starts_with("HTTP/1.1 200 OK\r\n"), "{}", written);
    assert!(written.ends_with("\r\n\r\n\u{1}\u{2}\u{3}"));
}

#[test]
fn a_malformed_request_is_answered_with_its_status() {
    let mut egress = FakeEgress::default();
    let written = round_trip("GET nonsense HTTP/1.1\r\n\r\n", &mut egress);
    assert!(written.starts_with("HTTP/1.1 400 "), "{}", written);
    assert!(egress.seen.is_empty());
}

#[test]
fn a_response_to_a_closed_connection_ends_its_request() {
    let mut egress = FakeEgress::default();
    let mut proxy = Proxy::new();
    proxy.on_opened(1);
    let actions = proxy.on_data(1, b"GET http://h/ HTTP/1.1\r\nHost: h\r\n\r\n".to_vec());
    for action in actions {
        if let ProxyAction::Submit(id, request) = action {
            egress.submit(id, request);
        }
    }
    proxy.on_closed(1);
    let mut last = Vec::new();
    for completion in egress.poll() {
        last = proxy.on_completion(completion);
    }
    assert!(matches!(last[..], [ProxyAction::Close(1, true)]));
    // The request is over: what else arrives for it is discarded.
    assert!(proxy.on_completion(Completion::End { id: 1 }).is_empty());
}

#[test]
fn response_heads_close_the_connection() {
    let head = encode_response_head(404, &[("X".to_string(), "y".to_string())]);
    let head = String::from_utf8(head).unwrap();
    assert!(head.starts_with("HTTP/1.1 404 Not Found\r\n"), "{}", head);
    assert!(head.contains("X: y\r\n"));
    assert!(head.ends_with("Connection: close\r\n\r\n"), "{}", head);
}

// ---- the relay ----

#[test]
fn sha1_and_base64_match_the_rfc_example() {
    // RFC 6455 §1.3: this key must produce this accept value.
    assert_eq!(
        accept_key("dGhlIHNhbXBsZSBub25jZQ=="),
        "s3pPLMBiTxaQ9kYGzzhZRbK+xOo="
    );
    assert_eq!(base64(b""), "");
    assert_eq!(base64(b"f"), "Zg==");
    assert_eq!(base64(b"fo"), "Zm8=");
    assert_eq!(base64(b"foo"), "Zm9v");
    assert_eq!(base64(b"foobar"), "Zm9vYmFy");
}

#[test]
fn digests_match_known_values() {
    let hex: String = sha1(b"abc").iter().map(|b| format!("{:02x}", b)).collect();
    assert_eq!(hex, "a9993e364706816aba3e25717850c26c9cd0d89d");
    let hex: String = sha1(&[b'a'; 64]).iter().map(|b| format!("{:02x}", b)).collect();
    assert_eq!(hex, "0098ba824b5c16427bd7a1122a5a442a25ec644d");
}

#[test]
fn relay_urls_are_split() {
    let url = parse_relay_url("ws://relay.test/path").unwrap();
    assert_eq!(
        (url.authority.as_str(), url.path.as_str(), url.addr.as_str()),
        ("relay.test", "/path", "relay.test:80")
    );
    assert_eq!(parse_relay_url("ws://h:9").unwrap().addr, "h:9");
    assert!(parse_relay_url("wss://h").is_err());
    assert!(parse_relay_url("http://h").is_err());
}

#[test]
fn upgrades_are_checked() {
    let key = "dGhlIHNhbXBsZSBub25jZQ==";
    let request = String::from_utf8(upgrade_request("h:9", "/p", key)).unwrap();
    assert!(request.starts_with("GET /p HTTP/1.1\r\nHost: h:9\r\n"), "{}", request);
    assert!(request.contains(key));
    let good = format!(
        "HTTP/1.1 101 Switching Protocols\r\nSec-WebSocket-Accept: {}\r\n\r\n",
        accept_key(key)
    );
    assert_eq!(check_upgrade(good.as_bytes(), key), Ok(()));
    assert!(check_upgrade(b"HTTP/1.1 200 OK\r\n\r\n", key).is_err());
    assert!(check_upgrade(b"HTTP/1.1 101 X\r\nSec-WebSocket-Accept: no\r\n\r\n", key).is_err());
    assert_eq!(handshake_read(b"HTTP/1.1 101"), HandshakeRead::More);
    assert_eq!(handshake_read(good.as_bytes()), HandshakeRead::Complete);
    assert_eq!(handshake_read(&[b'a'; 8193]), HandshakeRead::TooLarge);
}

/// A message as the relay sends it, unmasked.
fn from_relay(opcode: u8, payload: &[u8]) -> Vec<u8> {
    let mut msg = vec![0x80 | opcode, payload.len() as u8];
    msg.extend_from_slice(payload);
    msg
}

#[test]
fn frames_survive_the_relay_in_pieces() {
    let frame: Vec<u8> = (0..100u8).collect();
    let mut relay = RelayState::new();
    let msg = from_relay(2, &frame);
    relay.feed(&msg[..50]);
    assert!(relay.drain_frames().0.is_empty());
    relay.feed(&msg[50..]);
    relay.feed(&from_relay(9, b"ping"));
    let (frames, pings) = relay.drain_frames();
    assert_eq!(frames, vec![frame.clone()]);
    assert_eq!(pings, vec![b"ping".to_vec()]);
    relay.feed(&from_relay(8, b""));
    relay.drain_frames();
    assert!(relay.is_closed());

    let mask = [1, 2, 3, 4];
    let out = encode_frame(&frame, &mask);
    assert_eq!(out[..2], [0x82, 0x80 | 100]);
    assert_eq!(out[2..6], mask);
    let plain: Vec<u8> = out[6..].iter().enumerate().map(|(i, b)| b ^ mask[i % 4]).collect();
    assert_eq!(plain, frame);
    assert_eq!(encode_frame(&[0; 200], &mask)[..4], [0x82, 0xfe, 0, 200]);
    assert_eq!(encode_control(PONG, b"x", &mask)[..2], [0x8a, 0x81]);
    assert_eq!(fallback_bytes(0x0102)[..3], [2, 1 ^ 31, 62]);
}
