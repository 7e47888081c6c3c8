//! Native egress for the HTTP proxy: the requests it writes to a connection
//! and the responses it reads back.
//!
//! This backend reads a whole response before emitting it as `Head`/`Body`/`End`
//! rather than streaming incrementally. Incremental de-chunking would be the
//! only added value, and streaming matters where responses are large or
//! long-lived — which is the browser, where `fetch` streams natively.

use vstd::prelude::*;
use vstd::string::StringSliceAdditionalSpecFns;
use vstd::utf8::encode_utf8;
use crate::bytes::{copy_range, dec_text, push_all, push_dec};
use crate::http::{crlf_at, find_crlf, find_head_end, head_end};
use crate::text::{
    chars_of, contains_text, find_char, has_prefix, holds_text, index_of, is_text,
    is_text_ignoring_case, last_index_of, lines_from, literal, lossy_text, lowered, number, piece,
    prefix_len, quoted, read_number, rfind_char, split_lines, split_words, string_of, text_of,
    texts, to_lower, trim, trimmed, words,
};
use crate::wire::{header_view, Completion, Headers, ReqId, Request, RequestView, Response};

verus! {

/// Where a request goes.
#[derive(Debug, PartialEq)]
pub struct Target {
    pub tls: bool,
    pub host: String,
    pub authority: String,
    pub port: u16,
    pub path: String,
}

/// What a [`Target`] says.
#[verifier::ext_equal]
pub struct TargetView {
    pub tls: bool,
    pub host: Seq<char>,
    pub authority: Seq<char>,
    pub port: nat,
    pub path: Seq<char>,
}

impl View for Target {
    type V = TargetView;

    open spec fn view(&self) -> TargetView {
        TargetView {
            tls: self.tls,
            host: self.host@,
            authority: self.authority@,
            port: self.port as nat,
            path: self.path@,
        }
    }
}

/// Where the authority of a URL ends: at the first slash or question mark.
pub open spec fn authority_end(s: Seq<char>, from: int) -> int
    decreases s.len() - from,
{
    if 0 <= from < s.len() && s[from] != '/' && s[from] != '?' {
        authority_end(s, from + 1)
    } else {
        from
    }
}

/// The host and port of an authority, or what is wrong with it.
pub open spec fn host_and_port(authority: Seq<char>, default_port: nat) -> Result<
    (Seq<char>, nat),
    Seq<char>,
> {
    if authority.len() > 0 && authority[0] == '[' {
        let rest = authority.drop_first();
        match find_char(rest, ']', 0) {
            None => Err("bad IPv6 authority in "@),
            Some(close) => {
                let host = rest.subrange(0, close);
                let suffix = rest.subrange(close + 1, rest.len() as int);
                if suffix.len() == 0 {
                    Ok((host, default_port))
                } else if suffix[0] != ':' {
                    Err("bad IPv6 authority in "@)
                } else {
                    match number(suffix.drop_first(), 10, 65535) {
                        Some(port) => Ok((host, port)),
                        None => Err("bad port in "@),
                    }
                }
            },
        }
    } else {
        match rfind_char(authority, ':', authority.len() as int) {
            Some(at) if find_char(authority.subrange(0, at), ':', 0) is None => {
                match number(authority.subrange(at + 1, authority.len() as int), 10, 65535) {
                    Some(port) => Ok((authority.subrange(0, at), port)),
                    None => Err("bad port in "@),
                }
            },
            _ => Ok((authority, default_port)),
        }
    }
}

/// The parts of what follows the scheme of a URL, or what is wrong with it.
pub open spec fn target_of(rest: Seq<char>, tls: bool) -> Result<TargetView, Seq<char>> {
    let end = authority_end(rest, 0);
    let authority = rest.subrange(0, end);
    let tail = rest.subrange(end, rest.len() as int);
    let path = if tail.len() == 0 {
        "/"@
    } else if tail[0] == '?' {
        "/"@ + tail
    } else {
        tail
    };
    if authority.len() == 0 || find_char(authority, '@', 0) is Some {
        Err("invalid authority in "@)
    } else {
        match host_and_port(
            authority,
            if tls {
                443
            } else {
                80
            },
        ) {
            Err(e) => Err(e),
            Ok((host, port)) => if host.len() == 0 {
                Err("no host in "@)
            } else {
                Ok(TargetView { tls, host, authority, port, path })
            },
        }
    }
}

/// The parts of an absolute HTTP(S) URL, or the error that names it.
pub open spec fn url_target(url: Seq<char>) -> Result<TargetView, Seq<char>> {
    let parts = if has_prefix(url, "http://"@) {
        target_of(url.subrange("http://"@.len() as int, url.len() as int), false)
    } else if has_prefix(url, "https://"@) {
        target_of(url.subrange("https://"@.len() as int, url.len() as int), true)
    } else {
        Err("native egress requires http:// or https://, got "@)
    };
    match parts {
        Ok(target) => Ok(target),
        Err(what) => Err(what + url),
    }
}

fn split_authority(authority: &[char], default_port: u16) -> (r: Result<
    (Vec<char>, u16),
    &'static str,
>)
    ensures
        match (r, host_and_port(authority@, default_port as nat)) {
            (Ok((host, port)), Ok((h, p))) => host@ == h && port == p,
            (Err(a), Err(b)) => a@ == b,
            _ => false,
        },
{
    if authority.len() > 0 && authority[0] == '[' {
        let rest: Vec<char> = piece(authority, 1, authority.len());
        assert(rest@ =~= authority@.drop_first());
        let close: usize = match index_of(rest.as_slice(), ']', 0) {
            Some(close) => close,
            None => {
                return Err("bad IPv6 authority in ");
            },
        };
        let host: Vec<char> = piece(rest.as_slice(), 0, close);
        let suffix: Vec<char> = piece(rest.as_slice(), close + 1, rest.len());
        if suffix.len() == 0 {
            return Ok((host, default_port));
        }
        if suffix[0] != ':' {
            return Err("bad IPv6 authority in ");
        }
        let text: Vec<char> = piece(suffix.as_slice(), 1, suffix.len());
        assert(text@ =~= suffix@.drop_first());
        return match read_number(text.as_slice(), 10, 65535) {
            Some(port) => Ok((host, port as u16)),
            None => Err("bad port in "),
        };
    }
    if let Some(at) = last_index_of(authority, ':') {
        let host: Vec<char> = piece(authority, 0, at);
        if index_of(host.as_slice(), ':', 0).is_none() {
            let text: Vec<char> = piece(authority, at + 1, authority.len());
            return match read_number(text.as_slice(), 10, 65535) {
                Some(port) => Ok((host, port as u16)),
                None => Err("bad port in "),
            };
        }
    }
    Ok((vstd::slice::slice_to_vec(authority), default_port))
}

fn split_rest(rest: &[char], tls: bool) -> (r: Result<Target, &'static str>)
    ensures
        match (r, target_of(rest@, tls)) {
            (Ok(a), Ok(b)) => a@ == b,
            (Err(a), Err(b)) => a@ == b,
            _ => false,
        },
{
    let mut end: usize = 0;
    while end < rest.len() && rest[end] != '/' && rest[end] != '?'
        invariant
            end <= rest@.len(),
            authority_end(rest@, 0) == authority_end(rest@, end as int),
        decreases rest@.len() - end,
    {
        end = end + 1;
    }
    let authority: Vec<char> = piece(rest, 0, end);
    let tail: Vec<char> = piece(rest, end, rest.len());
    if authority.len() == 0 || index_of(authority.as_slice(), '@', 0).is_some() {
        return Err("invalid authority in ");
    }
    let path: Vec<char> = if tail.len() == 0 {
        chars_of("/")
    } else if tail[0] == '?' {
        let mut path: Vec<char> = chars_of("/");
        path.extend_from_slice(tail.as_slice());
        assert(path@ =~= "/"@ + tail@);
        path
    } else {
        tail
    };
    let default_port: u16 = if tls {
        443
    } else {
        80
    };
    match split_authority(authority.as_slice(), default_port) {
        Err(e) => Err(e),
        Ok((host, port)) => {
            if host.len() == 0 {
                return Err("no host in ");
            }
            Ok(
                Target {
                    tls,
                    host: string_of(host.as_slice()),
                    authority: string_of(authority.as_slice()),
                    port,
                    path: string_of(path.as_slice()),
                },
            )
        },
    }
}

/// Split an absolute HTTP(S) URL without pulling a general URL parser into the
/// emulator. Proxy parsing has already rejected fragments and malformed request
/// targets; this layer still validates the authority before opening a socket.
pub fn split_url(url: &str) -> (r: Result<Target, String>)
    ensures
        match (r, url_target(url@)) {
            (Ok(a), Ok(b)) => a@ == b,
            (Err(a), Err(b)) => a@ == b,
            _ => false,
        },
{
    let chars: Vec<char> = chars_of(url);
    let parts = if let Some(n) = prefix_len(chars.as_slice(), "http://") {
        split_rest(vstd::slice::slice_subrange(chars.as_slice(), n, chars.len()), false)
    } else if let Some(n) = prefix_len(chars.as_slice(), "https://") {
        split_rest(vstd::slice::slice_subrange(chars.as_slice(), n, chars.len()), true)
    } else {
        Err("native egress requires http:// or https://, got ")
    };
    match parts {
        Ok(target) => Ok(target),
        Err(what) => {
            let mut error: Vec<char> = chars_of(what);
            error.extend_from_slice(chars.as_slice());
            assert(error@ =~= what@ + url@);
            Err(string_of(error.as_slice()))
        },
    }
}

// ---- requests ------------------------------------------------------------

/// Whether a request header is written as the guest gave it. The host and the
/// length are set from the connection and the body.
pub open spec fn carried(name: Seq<char>) -> bool {
    lowered(name) != lowered("host"@) && lowered(name) != lowered("content-length"@)
}

/// The first `n` request headers, as far as they are carried.
pub open spec fn carried_lines(headers: Headers, n: int) -> Seq<u8>
    decreases n,
{
    if n <= 0 {
        Seq::empty()
    } else if carried(headers[n - 1].0) {
        carried_lines(headers, n - 1) + (encode_utf8(headers[n - 1].0) + ": ".spec_bytes()
            + encode_utf8(headers[n - 1].1) + "\r\n".spec_bytes())
    } else {
        carried_lines(headers, n - 1)
    }
}

/// The head of a request. Close-delimited: the response ends at EOF unless it
/// says otherwise, which saves keeping a connection pool for a development
/// backend.
pub open spec fn upstream_head(request: RequestView, target: TargetView) -> Seq<u8> {
    encode_utf8(request.method) + " ".spec_bytes() + encode_utf8(target.path)
        + " HTTP/1.1\r\nHost: ".spec_bytes() + encode_utf8(target.authority) + "\r\n".spec_bytes()
        + carried_lines(request.headers, request.headers.len() as int)
        + "Content-Length: ".spec_bytes() + dec_text(request.body.len())
        + "\r\nConnection: close\r\n\r\n".spec_bytes()
}

/// The head of a request.
pub fn encode_upstream_head(request: &Request, target: &Target) -> (out: Vec<u8>)
    ensures
        out@ == upstream_head(request@, target@),
{
    let mut out: Vec<u8> = Vec::new();
    push_all(&mut out, request.method.as_str().as_bytes());
    assert(out@ =~= encode_utf8(request@.method));
    push_all(&mut out, " ".as_bytes());
    push_all(&mut out, target.path.as_str().as_bytes());
    push_all(&mut out, " HTTP/1.1\r\nHost: ".as_bytes());
    push_all(&mut out, target.authority.as_str().as_bytes());
    push_all(&mut out, "\r\n".as_bytes());
    let ghost start = out@;
    let ghost view = request@.headers;
    assert(out@ =~= start + carried_lines(view, 0));
    let mut i: usize = 0;
    while i < request.headers.len()
        invariant
            i <= request.headers@.len(),
            view == header_view(request.headers@),
            out@ == start + carried_lines(view, i as int),
        decreases request.headers@.len() - i,
    {
        let ghost before = out@;
        assert(view[i as int] == (request.headers@[i as int].0@, request.headers@[i as int].1@));
        let name: Vec<char> = chars_of(request.headers[i].0.as_str());
        if !is_text_ignoring_case(name.as_slice(), "host") && !is_text_ignoring_case(
            name.as_slice(),
            "content-length",
        ) {
            push_all(&mut out, request.headers[i].0.as_str().as_bytes());
            push_all(&mut out, ": ".as_bytes());
            push_all(&mut out, request.headers[i].1.as_str().as_bytes());
            push_all(&mut out, "\r\n".as_bytes());
            assert(out@ =~= before + (encode_utf8(view[i as int].0) + ": ".spec_bytes()
                + encode_utf8(view[i as int].1) + "\r\n".spec_bytes()));
            assert(out@ =~= start + carried_lines(view, i + 1));
        }
        i = i + 1;
    }
    push_all(&mut out, "Content-Length: ".as_bytes());
    push_dec(&mut out, request.body.len() as u64);
    push_all(&mut out, "\r\nConnection: close\r\n\r\n".as_bytes());
    out
}

// ---- responses -----------------------------------------------------------

/// What a [`Response`] says.
#[verifier::ext_equal]
pub struct ResponseView {
    pub status: u16,
    pub headers: Headers,
    pub body: Seq<u8>,
}

impl View for Response {
    type V = ResponseView;

    open spec fn view(&self) -> ResponseView {
        ResponseView { status: self.status, headers: header_view(self.headers@), body: self.body@ }
    }
}

/// The text of `s` before its first semicolon.
pub open spec fn before_extension(s: Seq<char>) -> Seq<char> {
    match find_char(s, ';', 0) {
        Some(at) => s.subrange(0, at),
        None => s,
    }
}

/// The body in chunks from `pos` on, behind what was decoded so far. Chunk
/// extensions follow a semicolon and are not ours to interpret.
pub open spec fn dechunked(data: Seq<u8>, pos: int, so_far: Seq<u8>) -> Result<
    Seq<u8>,
    Seq<char>,
>
    decreases data.len() - pos,
{
    match crlf_at(data, pos) {
        Some(end) if 0 <= pos <= end && end + 2 <= data.len() => {
            let text = trimmed(before_extension(text_of(data.subrange(pos, end))));
            let next = end + 2;
            match number(text, 16, usize::MAX as nat) {
                None => Err("bad chunk size "@ + literal(text)),
                Some(size) => if size == 0 {
                    Ok(so_far)
                } else if data.len() - next < size {
                    Err("truncated chunk body"@)
                } else {
                    let after = if next + size + 2 <= data.len() {
                        next + size + 2
                    } else {
                        data.len() as int
                    };
                    dechunked(data, after, so_far + data.subrange(next, next + size as int))
                },
            }
        },
        _ => Err("truncated chunk header"@),
    }
}

/// What the header lines of a response say.
#[verifier::ext_equal]
pub struct ReplyHead {
    pub headers: Headers,
    pub length: Option<nat>,
    pub chunked: bool,
}

/// The head after one more line. A line without a colon is ignored.
pub open spec fn reply_line(head: ReplyHead, line: Seq<char>) -> ReplyHead {
    match find_char(line, ':', 0) {
        None => head,
        Some(at) => {
            let name = trimmed(line.subrange(0, at));
            let value = trimmed(line.subrange(at + 1, line.len() as int));
            ReplyHead {
                headers: head.headers.push((name, value)),
                length: if lowered(name) == "content-length"@ {
                    number(value, 10, usize::MAX as nat)
                } else {
                    head.length
                },
                chunked: head.chunked || (lowered(name) == "transfer-encoding"@ && holds_text(
                    lowered(value),
                    "chunked"@,
                )),
            }
        },
    }
}

/// The head that the lines `1..n` make.
pub open spec fn reply_head(lines: Seq<Seq<char>>, n: int) -> ReplyHead
    decreases n,
{
    if n <= 1 {
        ReplyHead { headers: Seq::empty(), length: None, chunked: false }
    } else {
        reply_line(reply_head(lines, n - 1), lines[n - 1])
    }
}

/// The status in a status line.
pub open spec fn status_of(line: Seq<char>) -> Option<nat> {
    if words(line).len() > 1 {
        number(words(line)[1], 10, 65535)
    } else {
        None
    }
}

/// The response behind a head whose text is `text`. With `Connection: close`
/// the body runs to EOF; an explicit length is honoured when one is given,
/// since a server may send both.
pub open spec fn response_behind(text: Seq<char>, rest: Seq<u8>) -> Result<
    ResponseView,
    Seq<char>,
> {
    let lines = lines_from(text, 0);
    let head = reply_head(lines, lines.len() as int);
    match status_of(lines[0]) {
        None => Err("bad status line: "@ + lines[0]),
        Some(status) => if head.chunked {
            match dechunked(rest, 0, Seq::empty()) {
                Err(e) => Err(e),
                Ok(body) => Ok(
                    ResponseView { status: status as u16, headers: head.headers, body },
                ),
            }
        } else {
            Ok(
                ResponseView {
                    status: status as u16,
                    headers: head.headers,
                    body: match head.length {
                        Some(n) if n < rest.len() => rest.subrange(0, n as int),
                        _ => rest,
                    },
                },
            )
        },
    }
}

/// The response in `raw`, or what is wrong with it.
pub open spec fn response_in(raw: Seq<u8>) -> Result<ResponseView, Seq<char>> {
    match head_end(raw) {
        None => Err("truncated response: no end of headers"@),
        Some(end) => response_behind(
            text_of(raw.subrange(0, end - 4)),
            raw.subrange(end, raw.len() as int),
        ),
    }
}

fn joined(what: &str, text: &[char]) -> (r: String)
    ensures
        r@ == what@ + text@,
{
    let mut chars: Vec<char> = chars_of(what);
    chars.extend_from_slice(text);
    assert(chars@ =~= what@ + text@);
    string_of(chars.as_slice())
}

/// Decode a body in chunks.
pub fn dechunk(data: &[u8]) -> (r: Result<Vec<u8>, String>)
    ensures
        match (r, dechunked(data@, 0, Seq::empty())) {
            (Ok(a), Ok(b)) => a@ == b,
            (Err(a), Err(b)) => a@ == b,
            _ => false,
        },
{
    let mut out: Vec<u8> = Vec::new();
    let mut pos: usize = 0;
    loop
        invariant
            pos <= data@.len(),
            dechunked(data@, 0, Seq::empty()) == dechunked(data@, pos as int, out@),
        decreases data@.len() - pos,
    {
        let line_end: usize = match find_crlf(data, pos) {
            Some(at) => at,
            None => {
                return Err(joined("truncated chunk header", empty_text().as_slice()));
            },
        };
        let line: String = lossy_text(vstd::slice::slice_subrange(data, pos, line_end));
        let chars: Vec<char> = chars_of(line.as_str());
        let size_end: usize = match index_of(chars.as_slice(), ';', 0) {
            Some(at) => at,
            None => chars.len(),
        };
        let field: Vec<char> = piece(chars.as_slice(), 0, size_end);
        assert(field@ =~= before_extension(chars@));
        let text: Vec<char> = trim(field.as_slice());
        let size: usize = match read_number(text.as_slice(), 16, usize::MAX as u64) {
            Some(size) => size as usize,
            None => {
                let shown: String = quoted(string_of(text.as_slice()).as_str());
                return Err(joined("bad chunk size ", chars_of(shown.as_str()).as_slice()));
            },
        };
        let next: usize = line_end + 2;
        if size == 0 {
            return Ok(out);
        }
        if data.len() - next < size {
            return Err(joined("truncated chunk body", empty_text().as_slice()));
        }
        push_all(&mut out, vstd::slice::slice_subrange(data, next, next + size));
        // skip the trailing CRLF
        pos = if data.len() - (next + size) >= 2 {
            next + size + 2
        } else {
            data.len()
        };
    }
}

fn empty_text() -> (r: Vec<char>)
    ensures
        r@ == Seq::<char>::empty(),
        forall|s: Seq<char>| #[trigger] (s + r@) == s,
{
    let r: Vec<char> = Vec::new();
    assert forall|s: Seq<char>| #[trigger] (s + r@) == s by {
        assert(s + r@ =~= s);
    }
    r
}

/// Read a whole response.
pub fn parse_response(raw: &[u8]) -> (r: Result<Response, String>)
    ensures
        match (r, response_in(raw@)) {
            (Ok(a), Ok(b)) => a@ == b,
            (Err(a), Err(b)) => a@ == b,
            _ => false,
        },
{
    let end: usize = match find_head_end(raw) {
        Some(end) => end,
        None => {
            return Err(
                joined("truncated response: no end of headers", empty_text().as_slice()),
            );
        },
    };
    let text: String = lossy_text(vstd::slice::slice_subrange(raw, 0, end - 4));
    parse_reply(text.as_str(), vstd::slice::slice_subrange(raw, end, raw.len()))
}

/// Read the response behind a head whose text is `text`.
pub fn parse_reply(text: &str, rest: &[u8]) -> (r: Result<Response, String>)
    ensures
        match (r, response_behind(text@, rest@)) {
            (Ok(a), Ok(b)) => a@ == b,
            (Err(a), Err(b)) => a@ == b,
            _ => false,
        },
{
    let chars: Vec<char> = chars_of(text);
    let lines: Vec<Vec<char>> = split_lines(chars.as_slice());
    let ghost views = texts(lines@);
    assert(views[0] == lines@[0]@);
    let ws: Vec<Vec<char>> = split_words(lines[0].as_slice());
    let mut status: Option<u64> = None;
    if ws.len() > 1 {
        assert(texts(ws@)[1] == ws@[1]@);
        status = read_number(ws[1].as_slice(), 10, 65535);
    }
    let status: u16 = match status {
        Some(status) => status as u16,
        None => {
            return Err(joined("bad status line: ", lines[0].as_slice()));
        },
    };
    let mut headers: Vec<(String, String)> = Vec::new();
    let mut length: Option<usize> = None;
    let mut chunked = false;
    let mut i: usize = 1;
    assert(header_view(headers@) =~= Seq::empty());
    while i < lines.len()
        invariant
            1 <= i <= lines@.len(),
            views == texts(lines@),
            ({
                let head = reply_head(views, i as int);
                &&& head.headers == header_view(headers@)
                &&& head.chunked == chunked
                &&& match (head.length, length) {
                    (Some(a), Some(b)) => a == b,
                    (None, None) => true,
                    _ => false,
                }
            }),
        decreases lines@.len() - i,
    {
        assert(views[i as int] == lines@[i as int]@);
        let line: &[char] = lines[i].as_slice();
        if let Some(at) = index_of(line, ':', 0) {
            let name: Vec<char> = trim(vstd::slice::slice_subrange(line, 0, at));
            let value: Vec<char> = trim(vstd::slice::slice_subrange(line, at + 1, line.len()));
            let low: Vec<char> = to_lower(name.as_slice());
            if is_text(low.as_slice(), "content-length") {
                length = match read_number(value.as_slice(), 10, usize::MAX as u64) {
                    Some(n) => Some(n as usize),
                    None => None,
                };
            }
            if is_text(low.as_slice(), "transfer-encoding") {
                let low_value: Vec<char> = to_lower(value.as_slice());
                if contains_text(low_value.as_slice(), "chunked") {
                    chunked = true;
                }
            }
            let ghost before = header_view(headers@);
            headers.push((string_of(name.as_slice()), string_of(value.as_slice())));
            assert(header_view(headers@) =~= before.push((name@, value@)));
        }
        i = i + 1;
    }
    let body: Vec<u8> = if chunked {
        match dechunk(rest) {
            Ok(body) => body,
            Err(e) => {
                return Err(e);
            },
        }
    } else {
        match length {
            Some(n) if n < rest.len() => copy_range(rest, 0, n),
            _ => vstd::slice::slice_to_vec(rest),
        }
    };
    Ok(Response { status, headers, body })
}

/// What egress reports of a finished request: its head, its body unless it is
/// empty, and its end; or that it failed.
pub fn completions(id: ReqId, outcome: Result<Response, String>) -> (done: Vec<Completion>)
    ensures
        match outcome {
            Err(error) => done@ == seq![Completion::Failed { id, error }],
            Ok(response) => {
                let head = Completion::Head {
                    id,
                    status: response.status,
                    headers: response.headers,
                };
                let end = Completion::End { id };
                done@ == if response.body@.len() > 0 {
                    seq![head, Completion::Body { id, bytes: response.body }, end]
                } else {
                    seq![head, end]
                }
            },
        },
{
    let mut done: Vec<Completion> = Vec::new();
    match outcome {
        Ok(response) => {
            done.push(
                Completion::Head { id, status: response.status, headers: response.headers },
            );
            if response.body.len() > 0 {
                done.push(Completion::Body { id, bytes: response.body });
            }
            done.push(Completion::End { id });
        },
        Err(error) => {
            done.push(Completion::Failed { id, error });
        },
    }
    done
}

/// An unlimited response that is neither chunked nor sized is its whole rest.
pub proof fn law_close_delimited_body_is_the_rest(text: Seq<char>, rest: Seq<u8>)
    requires
        ({
            let lines = lines_from(text, 0);
            let head = reply_head(lines, lines.len() as int);
            !head.chunked && head.length is None && status_of(lines[0]) is Some
        }),
    ensures
        response_behind(text, rest) matches Ok(response) && response.body == rest,
{
}

} // verus!
