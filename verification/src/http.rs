//! HTTP proxy requests: recognizing a complete request in bytes that are still
//! arriving.
//!
//! - Absolute-URI requests (`GET http://host/path`), which is what a client
//!   sends to a proxy. Origin-form plus a `Host` header is also accepted, since
//!   being lenient here costs nothing.
//! - Request bodies with `Content-Length` or `Transfer-Encoding: chunked`.
//!   Chunked bodies are decoded before crossing the request-shaped egress
//!   boundary; request trailers and stacked transfer codings are rejected
//!   explicitly rather than silently discarded.

use vstd::prelude::*;
use vstd::utf8::{decode_utf8, valid_utf8};
use crate::bytes::{copy_range, push_all};
use crate::text::{
    chars_of, find_char, has_prefix, index_of, is_text, is_text_ignoring_case, last_index_of,
    lines_from, lossy_text, lowered, number, piece, pieces_from, prefix_len, read_number,
    rfind_char, split_at_char, split_lines, split_words, string_of, text_of, texts, to_lower, trim,
    trimmed, utf8_text, words,
};
use crate::wire::{header_view, Headers, Request, RequestView};

verus! {

/// Largest request head we will buffer from the guest, so a hostile or broken
/// guest cannot grow host memory without bound.
pub const MAX_HEAD: usize = 65536;

/// Largest request body we will buffer from the guest.
pub const MAX_BODY: usize = 33_554_432;

/// Why a request is refused, as the guest will be told.
#[derive(Debug, Clone, Copy, PartialEq, Eq)]
pub struct ParseError {
    pub status: u16,
    pub reason: &'static str,
    pub detail: &'static str,
}

/// The request is malformed.
pub open spec fn bad_request(detail: &'static str) -> ParseError {
    ParseError { status: 400, reason: "Bad Request", detail }
}

/// The request needs something that the proxy does not do.
pub open spec fn not_implemented(detail: &'static str) -> ParseError {
    ParseError { status: 501, reason: "Not Implemented", detail }
}

/// The request is too large.
pub open spec fn too_large() -> ParseError {
    ParseError {
        status: 413,
        reason: "Payload Too Large",
        detail: "request body too large",
    }
}

/// The head does not end.
pub open spec fn head_too_large() -> ParseError {
    ParseError {
        status: 431,
        reason: "Request Header Fields Too Large",
        detail: "no end of headers",
    }
}

fn refuse(detail: &'static str) -> (e: ParseError)
    ensures
        e == bad_request(detail),
{
    ParseError { status: 400, reason: "Bad Request", detail }
}

fn refuse_unimplemented(detail: &'static str) -> (e: ParseError)
    ensures
        e == not_implemented(detail),
{
    ParseError { status: 501, reason: "Not Implemented", detail }
}

fn refuse_size() -> (e: ParseError)
    ensures
        e == too_large(),
{
    ParseError { status: 413, reason: "Payload Too Large", detail: "request body too large" }
}

fn refuse_head() -> (e: ParseError)
    ensures
        e == head_too_large(),
{
    ParseError {
        status: 431,
        reason: "Request Header Fields Too Large",
        detail: "no end of headers",
    }
}

// ---- line and head ends --------------------------------------------------

/// The first index from `from` on at which CR LF stands.
pub open spec fn crlf_at(buf: Seq<u8>, from: int) -> Option<int>
    decreases buf.len() - from,
{
    if !(0 <= from && from + 2 <= buf.len()) {
        None
    } else if buf[from] == 13 && buf[from + 1] == 10 {
        Some(from)
    } else {
        crlf_at(buf, from + 1)
    }
}

/// Whether an empty line ends at `at + 4`.
pub open spec fn blank_line_at(buf: Seq<u8>, at: int) -> bool {
    buf[at] == 13 && buf[at + 1] == 10 && buf[at + 2] == 13 && buf[at + 3] == 10
}

/// Where the first head from `from` on ends: behind the first empty line.
pub open spec fn head_end_from(buf: Seq<u8>, from: int) -> Option<int>
    decreases buf.len() - from,
{
    if !(0 <= from && from + 4 <= buf.len()) {
        None
    } else if blank_line_at(buf, from) {
        Some(from + 4)
    } else {
        head_end_from(buf, from + 1)
    }
}

/// Where the head ends: behind the first empty line.
pub open spec fn head_end(buf: Seq<u8>) -> Option<int> {
    head_end_from(buf, 0)
}

/// The first index from `start` on at which CR LF stands.
pub fn find_crlf(buf: &[u8], start: usize) -> (at: Option<usize>)
    ensures
        match (at, crlf_at(buf@, start as int)) {
            (Some(a), Some(b)) => a == b && start <= a && a + 2 <= buf.len(),
            (None, None) => true,
            _ => false,
        },
{
    let mut i: usize = start;
    while i < buf.len() && buf.len() - i >= 2
        invariant
            start <= i,
            crlf_at(buf@, start as int) == crlf_at(buf@, i as int),
        decreases buf@.len() - i,
    {
        if buf[i] == 13 && buf[i + 1] == 10 {
            return Some(i);
        }
        i = i + 1;
    }
    None
}

/// Where the head ends: behind the first empty line.
pub fn find_head_end(buf: &[u8]) -> (end: Option<usize>)
    ensures
        match (end, head_end(buf@)) {
            (Some(a), Some(b)) => a == b && 4 <= a <= buf.len() && blank_line_at(buf@, a - 4),
            (None, None) => true,
            _ => false,
        },
{
    let mut i: usize = 0;
    while i < buf.len() && buf.len() - i >= 4
        invariant
            i <= buf@.len(),
            head_end(buf@) == head_end_from(buf@, i as int),
        decreases buf@.len() - i,
    {
        if buf[i] == 13 && buf[i + 1] == 10 && buf[i + 2] == 13 && buf[i + 3] == 10 {
            return Some(i + 4);
        }
        i = i + 1;
    }
    None
}

proof fn lemma_crlf(buf: Seq<u8>, from: int)
    requires
        0 <= from,
    ensures
        crlf_at(buf, from) matches Some(at) ==> from <= at && at + 2 <= buf.len(),
    decreases buf.len() - from,
{
    if from + 2 <= buf.len() {
        lemma_crlf(buf, from + 1);
    }
}

proof fn lemma_crlf_found(buf: Seq<u8>, from: int, at: int)
    requires
        0 <= from <= at,
        at + 2 <= buf.len(),
        buf[at] == 13 && buf[at + 1] == 10,
    ensures
        crlf_at(buf, from) matches Some(first) && from <= first <= at,
    decreases at - from,
{
    if from < at {
        lemma_crlf_found(buf, from + 1, at);
    }
}

proof fn lemma_head_end(buf: Seq<u8>, from: int)
    requires
        0 <= from,
    ensures
        head_end_from(buf, from) matches Some(end) ==> from + 4 <= end <= buf.len()
            && blank_line_at(buf, end - 4),
    decreases buf.len() - from,
{
    if from + 4 <= buf.len() {
        lemma_head_end(buf, from + 1);
    }
}

// ---- CONNECT -------------------------------------------------------------

/// The host of a CONNECT authority: `host:port` or `[host]:port`, with a port
/// that is a number up to 65535.
pub open spec fn authority_host(authority: Seq<char>) -> Option<Seq<char>> {
    if authority.len() > 0 && authority[0] == '[' {
        let rest = authority.drop_first();
        match find_char(rest, ']', 0) {
            None => None,
            Some(end) => {
                let host = rest.subrange(0, end);
                let tail = rest.subrange(end + 1, rest.len() as int);
                if tail.len() > 0 && tail[0] == ':' && host.len() > 0 && number(
                    tail.drop_first(),
                    10,
                    65535,
                ) is Some {
                    Some(host)
                } else {
                    None
                }
            },
        }
    } else {
        match rfind_char(authority, ':', authority.len() as int) {
            None => None,
            Some(at) => {
                let host = authority.subrange(0, at);
                if host.len() > 0 && find_char(host, ':', 0) is None && number(
                    authority.subrange(at + 1, authority.len() as int),
                    10,
                    65535,
                ) is Some {
                    Some(host)
                } else {
                    None
                }
            },
        }
    }
}

/// The `i`-th word, or nothing.
pub open spec fn nth(ws: Seq<Seq<char>>, i: int) -> Seq<char> {
    if i < ws.len() {
        ws[i]
    } else {
        Seq::empty()
    }
}

/// What a CONNECT head asks for: the host, and where the head ends. An
/// incomplete head and a request that is not CONNECT ask for nothing.
pub open spec fn connect_request(buf: Seq<u8>) -> Result<Option<(Seq<char>, int)>, ParseError> {
    match head_end(buf) {
        None => if buf.len() > MAX_HEAD {
            Err(head_too_large())
        } else {
            Ok(None)
        },
        Some(end) => {
            let ws = words(text_of(buf.subrange(0, crlf_at(buf, 0)->0)));
            if lowered(nth(ws, 0)) != lowered("CONNECT"@) {
                Ok(None)
            } else if nth(ws, 1).len() == 0 || !has_prefix(nth(ws, 2), "HTTP/"@) || ws.len() > 3
                || authority_host(nth(ws, 1)) is None {
                Err(bad_request("malformed CONNECT authority"))
            } else {
                Ok(Some((authority_host(nth(ws, 1))->0, end)))
            }
        },
    }
}

/// The host of a CONNECT authority.
fn connect_host(authority: &[char]) -> (host: Option<Vec<char>>)
    ensures
        match (host, authority_host(authority@)) {
            (Some(a), Some(b)) => a@ == b,
            (None, None) => true,
            _ => false,
        },
{
    if authority.len() > 0 && authority[0] == '[' {
        let rest: Vec<char> = piece(authority, 1, authority.len());
        assert(rest@ =~= authority@.drop_first());
        return match index_of(rest.as_slice(), ']', 0) {
            None => None,
            Some(end) => {
                let host: Vec<char> = piece(rest.as_slice(), 0, end);
                let tail: Vec<char> = piece(rest.as_slice(), end + 1, rest.len());
                if tail.len() == 0 || tail[0] != ':' || host.len() == 0 {
                    return None;
                }
                let port: Vec<char> = piece(tail.as_slice(), 1, tail.len());
                assert(port@ =~= tail@.drop_first());
                if read_number(port.as_slice(), 10, 65535).is_some() {
                    Some(host)
                } else {
                    None
                }
            },
        };
    }
    match last_index_of(authority, ':') {
        None => None,
        Some(at) => {
            let host: Vec<char> = piece(authority, 0, at);
            let port: Vec<char> = piece(authority, at + 1, authority.len());
            if host.len() > 0 && index_of(host.as_slice(), ':', 0).is_none() && read_number(
                port.as_slice(),
                10,
                65535,
            ).is_some() {
                Some(host)
            } else {
                None
            }
        },
    }
}

/// The `i`-th word, or nothing.
fn word(ws: &Vec<Vec<char>>, i: usize) -> (w: Vec<char>)
    ensures
        w@ == nth(texts(ws@), i as int),
{
    if i < ws.len() {
        piece(ws[i].as_slice(), 0, ws[i].len())
    } else {
        Vec::new()
    }
}

/// Recognize and validate a complete CONNECT head.
///
/// A non-CONNECT request and an incomplete head both return `Ok(None)`: the
/// ordinary HTTP parser below distinguishes those cases. The returned offset
/// lets a client place its first TLS record in the same TCP segment.
pub fn parse_connect(buf: &[u8]) -> (r: Result<Option<(String, usize)>, ParseError>)
    ensures
        match (r, connect_request(buf@)) {
            (Ok(Some((host, end))), Ok(Some((h, e)))) => host@ == h && end == e && end
                <= buf@.len(),
            (Ok(None), Ok(None)) => true,
            (Err(a), Err(b)) => a == b,
            _ => false,
        },
{
    let end: usize = match find_head_end(buf) {
        Some(end) => end,
        None => {
            return if buf.len() > MAX_HEAD {
                Err(refuse_head())
            } else {
                Ok(None)
            };
        },
    };
    proof {
        lemma_crlf_found(buf@, 0, end - 4);
    }
    let first_end: usize = match find_crlf(buf, 0) {
        Some(at) => at,
        None => end,
    };
    let line: String = lossy_text(vstd::slice::slice_subrange(buf, 0, first_end));
    let chars: Vec<char> = chars_of(line.as_str());
    let ws: Vec<Vec<char>> = split_words(chars.as_slice());
    let method: Vec<char> = word(&ws, 0);
    if !is_text_ignoring_case(method.as_slice(), "CONNECT") {
        return Ok(None);
    }
    let target: Vec<char> = word(&ws, 1);
    let version: Vec<char> = word(&ws, 2);
    if target.len() == 0 || prefix_len(version.as_slice(), "HTTP/").is_none() || ws.len() > 3 {
        return Err(refuse("malformed CONNECT authority"));
    }
    match connect_host(target.as_slice()) {
        Some(host) => Ok(Some((string_of(host.as_slice()), end))),
        None => Err(refuse("malformed CONNECT authority")),
    }
}

// ---- chunked bodies ------------------------------------------------------

/// The bytes of `s` before its first semicolon.
pub open spec fn before_semicolon(s: Seq<u8>, from: int) -> int
    decreases s.len() - from,
{
    if 0 <= from < s.len() && s[from] != 59 {
        before_semicolon(s, from + 1)
    } else {
        from
    }
}

/// The size that a chunk line declares. Extensions behind a semicolon are
/// ignored.
pub open spec fn chunk_size(line: Seq<u8>) -> Option<nat> {
    let size = line.subrange(0, before_semicolon(line, 0));
    if valid_utf8(size) {
        number(trimmed(decode_utf8(size)), 16, usize::MAX as nat)
    } else {
        None
    }
}

/// The body in chunks from `pos` on, behind what was decoded so far. `Ok(None)`
/// means that it has not fully arrived yet. The body is bounded independently
/// of the wire buffer, and trailers are rejected because a request cannot
/// represent them.
pub open spec fn chunked(buf: Seq<u8>, pos: int, so_far: Seq<u8>) -> Result<
    Option<Seq<u8>>,
    ParseError,
>
    decreases buf.len() - pos,
{
    match crlf_at(buf, pos) {
        Some(end) if 0 <= pos <= end && end + 2 <= buf.len() => {
            let next = end + 2;
            match chunk_size(buf.subrange(pos, end)) {
                None => Err(bad_request("invalid chunk size")),
                Some(size) => if size == 0 {
                    match crlf_at(buf, next) {
                        None => Ok(None),
                        Some(trailer) => if trailer == next {
                            Ok(Some(so_far))
                        } else {
                            Err(not_implemented("chunked request trailers are not supported"))
                        },
                    }
                } else if so_far.len() + size > MAX_BODY || next + size > usize::MAX {
                    Err(too_large())
                } else if buf.len() < next + size + 2 {
                    Ok(None)
                } else if buf[next + size] != 13 || buf[next + size + 1] != 10 {
                    Err(bad_request("chunk data is not followed by CRLF"))
                } else {
                    chunked(
                        buf,
                        next + size + 2,
                        so_far + buf.subrange(next, next + size as int),
                    )
                },
            }
        },
        _ => Ok(None),
    }
}

fn line_size(line: &[u8]) -> (size: Option<usize>)
    ensures
        match (size, chunk_size(line@)) {
            (Some(a), Some(b)) => a == b,
            (None, None) => true,
            _ => false,
        },
{
    let mut i: usize = 0;
    while i < line.len() && line[i] != 59
        invariant
            i <= line@.len(),
            before_semicolon(line@, 0) == before_semicolon(line@, i as int),
        decreases line@.len() - i,
    {
        i = i + 1;
    }
    match utf8_text(vstd::slice::slice_subrange(line, 0, i)) {
        Some(text) => {
            let chars: Vec<char> = chars_of(text.as_str());
            let field: Vec<char> = trim(chars.as_slice());
            match read_number(field.as_slice(), 16, usize::MAX as u64) {
                Some(size) => Some(size as usize),
                None => None,
            }
        },
        None => None,
    }
}

/// Decode RFC-style chunk framing while the request is still arriving.
///
/// The returned body is bounded independently of the wire buffer. Chunk
/// extensions are harmless framing metadata and are ignored. Trailers are not
/// representable by [`Request`], so a non-empty trailer section is rejected.
pub fn decode_chunked_body(buf: &[u8], start: usize) -> (r: Result<Option<Vec<u8>>, ParseError>)
    ensures
        match (r, chunked(buf@, start as int, Seq::empty())) {
            (Ok(Some(a)), Ok(Some(b))) => a@ == b,
            (Ok(None), Ok(None)) => true,
            (Err(a), Err(b)) => a == b,
            _ => false,
        },
{
    let mut body: Vec<u8> = Vec::new();
    let mut pos: usize = start;
    loop
        invariant
            body@.len() <= MAX_BODY,
            chunked(buf@, start as int, Seq::empty()) == chunked(buf@, pos as int, body@),
        decreases buf@.len() - pos,
    {
        let line_end: usize = match find_crlf(buf, pos) {
            Some(at) => at,
            None => {
                return Ok(None);
            },
        };
        let size: usize = match line_size(vstd::slice::slice_subrange(buf, pos, line_end)) {
            Some(size) => size,
            None => {
                return Err(refuse("invalid chunk size"));
            },
        };
        let next: usize = line_end + 2;
        if size == 0 {
            return match find_crlf(buf, next) {
                None => Ok(None),
                Some(trailer_end) => if trailer_end == next {
                    Ok(Some(body))
                } else {
                    Err(refuse_unimplemented("chunked request trailers are not supported"))
                },
            };
        }
        if size > MAX_BODY || body.len() > MAX_BODY - size || size > usize::MAX - next {
            return Err(refuse_size());
        }
        let data_end: usize = next + size;
        if data_end > buf.len() || buf.len() - data_end < 2 {
            return Ok(None);
        }
        if buf[data_end] != 13 || buf[data_end + 1] != 10 {
            return Err(refuse("chunk data is not followed by CRLF"));
        }
        push_all(&mut body, vstd::slice::slice_subrange(buf, next, data_end));
        pos = data_end + 2;
    }
}

// ---- request heads -------------------------------------------------------

/// Whether a header describes *this* hop and must not be forwarded (RFC 7230
/// §6.1), `proxy-connection` included, which is the pre-standard spelling
/// clients still send to proxies. Also `accept-encoding`: fetch() sets its own,
/// and forwarding the guest's confuses content coding.
pub open spec fn hop_by_hop(name: Seq<char>) -> bool {
    ||| name == "connection"@
    ||| name == "proxy-connection"@
    ||| name == "keep-alive"@
    ||| name == "proxy-authenticate"@
    ||| name == "proxy-authorization"@
    ||| name == "te"@
    ||| name == "trailer"@
    ||| name == "transfer-encoding"@
    ||| name == "upgrade"@
    ||| name == "accept-encoding"@
}

/// Whether a lower-case header name is of this hop only.
pub fn is_hop_by_hop(name: &[char]) -> (r: bool)
    ensures
        r == hop_by_hop(name@),
{
    is_text(name, "connection") || is_text(name, "proxy-connection") || is_text(name, "keep-alive")
        || is_text(name, "proxy-authenticate") || is_text(name, "proxy-authorization") || is_text(
        name,
        "te",
    ) || is_text(name, "trailer") || is_text(name, "transfer-encoding") || is_text(name, "upgrade")
        || is_text(name, "accept-encoding")
}

/// What the header lines of a request say.
#[verifier::ext_equal]
pub struct HeadView {
    pub headers: Headers,
    pub host: Seq<char>,
    pub length: Option<nat>,
    pub codings: Seq<Seq<char>>,
}

/// The transfer codings that a header value lists.
pub open spec fn codings_in(value: Seq<char>) -> Seq<Seq<char>> {
    pieces_from(value, ',', 0).map_values(|coding: Seq<char>| lowered(trimmed(coding)))
}

/// The body length that a header value declares: digits alone.
pub open spec fn declared_length(value: Seq<char>) -> Option<nat> {
    if value.len() > 0 && value[0] != '+' {
        number(value, 10, usize::MAX as nat)
    } else {
        None
    }
}

/// The head after one more line. A line without a colon is ignored; egress
/// reconstructs framing from the body, so a guest's length is never forwarded.
pub open spec fn head_line(head: HeadView, line: Seq<char>) -> Result<HeadView, ParseError> {
    match find_char(line, ':', 0) {
        None => Ok(head),
        Some(at) => {
            let name = trimmed(line.subrange(0, at));
            let value = trimmed(line.subrange(at + 1, line.len() as int));
            let low = lowered(name);
            let headers = if !hop_by_hop(low) && low != "content-length"@ {
                head.headers.push((name, value))
            } else {
                head.headers
            };
            if low == "host"@ {
                Ok(HeadView { headers, host: value, ..head })
            } else if low == "content-length"@ {
                match declared_length(value) {
                    None => Err(bad_request("invalid Content-Length")),
                    Some(length) => if head.length matches Some(previous) && previous != length {
                        Err(bad_request("conflicting Content-Length headers"))
                    } else {
                        Ok(HeadView { headers, length: Some(length), ..head })
                    },
                }
            } else if low == "transfer-encoding"@ {
                Ok(HeadView { headers, codings: head.codings + codings_in(value), ..head })
            } else {
                Ok(HeadView { headers, ..head })
            }
        },
    }
}

/// The head that the lines `1..n` make.
pub open spec fn head_of(lines: Seq<Seq<char>>, n: int) -> Result<HeadView, ParseError>
    decreases n,
{
    if n <= 1 {
        Ok(
            HeadView {
                headers: Seq::empty(),
                host: Seq::empty(),
                length: None,
                codings: Seq::empty(),
            },
        )
    } else {
        match head_of(lines, n - 1) {
            Err(e) => Err(e),
            Ok(head) => head_line(head, lines[n - 1]),
        }
    }
}

/// The URL that a request target and a host name. Proxies get absolute-URI
/// form; origin-form plus `Host` is accepted as a convenience.
pub open spec fn absolute(target: Seq<char>, host: Seq<char>) -> Option<Seq<char>> {
    if has_prefix(target, "http://"@) || has_prefix(target, "https://"@) {
        Some(target)
    } else if target.len() > 0 && target[0] == '/' && host.len() > 0 {
        Some("http://"@ + host + target)
    } else {
        None
    }
}

/// The URL with `http` replaced by `https`, where it is asked for.
pub open spec fn with_scheme(url: Seq<char>, upgrade: bool) -> Seq<char> {
    if upgrade && has_prefix(url, "http://"@) {
        "https://"@ + url.subrange("http://"@.len() as int, url.len() as int)
    } else {
        url
    }
}

/// What a head asks for before its body is looked at: the first reason to
/// refuse it, if there is one.
pub open spec fn head_refusal(method: Seq<char>, head: HeadView) -> Option<ParseError> {
    if lowered(method) == lowered("CONNECT"@) {
        Some(
            not_implemented("CONNECT (https) is not supported yet; use an http:// URL"),
        )
    } else if head.length is Some && head.codings.len() > 0 {
        Some(
            bad_request("both Content-Length and Transfer-Encoding are present"),
        )
    } else if head.codings.len() > 0 && head.codings != seq!["chunked"@] {
        Some(
            not_implemented("only a single chunked transfer coding is supported"),
        )
    } else if head.length matches Some(length) && length > MAX_BODY {
        Some(too_large())
    } else {
        None
    }
}

/// The body behind a head, once it has fully arrived.
pub open spec fn body_of(buf: Seq<u8>, end: int, head: HeadView) -> Result<
    Option<Seq<u8>>,
    ParseError,
> {
    if head.codings.len() > 0 {
        chunked(buf, end, Seq::empty())
    } else {
        let length = match head.length {
            Some(length) => length as int,
            None => 0,
        };
        if buf.len() < end + length {
            Ok(None)
        } else {
            Ok(Some(buf.subrange(end, end + length)))
        }
    }
}

/// The request behind a complete head whose text is `text` and which ends at
/// `end`.
pub open spec fn request_behind(buf: Seq<u8>, text: Seq<char>, end: int, upgrade: bool) -> Result<
    Option<RequestView>,
    ParseError,
> {
    let lines = lines_from(text, 0);
    let ws = words(lines[0]);
    let method = nth(ws, 0);
    let target = nth(ws, 1);
    if method.len() == 0 || target.len() == 0 {
        Err(bad_request("malformed request line"))
    } else {
        match head_of(lines, lines.len() as int) {
            Err(e) => Err(e),
            Ok(head) => match head_refusal(method, head) {
                Some(e) => Err(e),
                None => match body_of(buf, end, head) {
                    Err(e) => Err(e),
                    Ok(None) => Ok(None),
                    Ok(Some(body)) => match absolute(target, head.host) {
                        None => Err(bad_request("request target is not a proxyable URL")),
                        Some(url) => Ok(
                            Some(
                                RequestView {
                                    method,
                                    url: with_scheme(url, upgrade),
                                    headers: head.headers,
                                    body,
                                },
                            ),
                        ),
                    },
                },
            },
        }
    }
}

/// The complete proxy request in `buf`. `Ok(None)` means that the request has
/// not fully arrived yet.
pub open spec fn proxy_request(buf: Seq<u8>, upgrade: bool) -> Result<
    Option<RequestView>,
    ParseError,
> {
    match head_end(buf) {
        None => if buf.len() > MAX_HEAD {
            Err(head_too_large())
        } else {
            Ok(None)
        },
        Some(end) => request_behind(buf, text_of(buf.subrange(0, end - 4)), end, upgrade),
    }
}

struct Head {
    headers: Vec<(String, String)>,
    host: Vec<char>,
    length: Option<usize>,
    codings: Vec<Vec<char>>,
}

impl View for Head {
    type V = HeadView;

    closed spec fn view(&self) -> HeadView {
        HeadView {
            headers: header_view(self.headers@),
            host: self.host@,
            length: match self.length {
                Some(length) => Some(length as nat),
                None => None,
            },
            codings: texts(self.codings@),
        }
    }
}

impl Head {
    fn add_line(&mut self, line: &[char]) -> (r: Result<(), ParseError>)
        ensures
            match (r, head_line(old(self)@, line@)) {
                (Ok(_), Ok(head)) => final(self)@ == head,
                (Err(a), Err(b)) => a == b,
                _ => false,
            },
    {
        let at: usize = match index_of(line, ':', 0) {
            Some(at) => at,
            None => {
                return Ok(());
            },
        };
        let name: Vec<char> = trim(vstd::slice::slice_subrange(line, 0, at));
        let value: Vec<char> = trim(vstd::slice::slice_subrange(line, at + 1, line.len()));
        let low: Vec<char> = to_lower(name.as_slice());
        let is_length = is_text(low.as_slice(), "content-length");
        if !is_hop_by_hop(low.as_slice()) && !is_length {
            let ghost before = header_view(self.headers@);
            self.headers.push((string_of(name.as_slice()), string_of(value.as_slice())));
            assert(header_view(self.headers@) =~= before.push((name@, value@)));
        }
        if is_text(low.as_slice(), "host") {
            self.host = value;
        } else if is_length {
            if value.len() == 0 || value[0] == '+' {
                return Err(refuse("invalid Content-Length"));
            }
            let length: usize = match read_number(value.as_slice(), 10, usize::MAX as u64) {
                Some(length) => length as usize,
                None => {
                    return Err(refuse("invalid Content-Length"));
                },
            };
            if let Some(previous) = self.length {
                if previous != length {
                    return Err(refuse("conflicting Content-Length headers"));
                }
            }
            self.length = Some(length);
        } else if is_text(low.as_slice(), "transfer-encoding") {
            let parts: Vec<Vec<char>> = split_at_char(value.as_slice(), ',');
            let ghost all = codings_in(value@);
            let ghost before = texts(self.codings@);
            let mut i: usize = 0;
            assert(texts(self.codings@) =~= before + all.subrange(0, 0));
            while i < parts.len()
                invariant
                    i <= parts@.len(),
                    all == texts(parts@).map_values(|c: Seq<char>| lowered(trimmed(c))),
                    texts(self.codings@) == before + all.subrange(0, i as int),
                    self@ == (HeadView { codings: texts(self.codings@), ..self@ }),
                    self.headers@ == old(self).headers@ || !hop_by_hop("transfer-encoding"@),
                    self.host == old(self).host,
                    self.length == old(self).length,
                decreases parts@.len() - i,
            {
                let ghost so_far = texts(self.codings@);
                let trimmed_part: Vec<char> = trim(parts[i].as_slice());
                let coding: Vec<char> = to_lower(trimmed_part.as_slice());
                self.codings.push(coding);
                i = i + 1;
                proof {
                    assert(texts(self.codings@) =~= so_far.push(coding@));
                    assert(texts(parts@)[i - 1] == parts@[i - 1]@);
                    assert(so_far.push(coding@) =~= before + all.subrange(0, i as int));
                }
            }
            assert(all.subrange(0, i as int) =~= all);
        }
        Ok(())
    }
}

/// The URL that a request target and a host name.
fn absolute_url(target: &[char], host: &[char]) -> (url: Option<Vec<char>>)
    ensures
        match (url, absolute(target@, host@)) {
            (Some(a), Some(b)) => a@ == b,
            (None, None) => true,
            _ => false,
        },
{
    if prefix_len(target, "http://").is_some() || prefix_len(target, "https://").is_some() {
        return Some(piece_all(target));
    }
    if target.len() > 0 && target[0] == '/' && host.len() > 0 {
        let mut url: Vec<char> = chars_of("http://");
        push_chars(&mut url, host);
        push_chars(&mut url, target);
        return Some(url);
    }
    None
}

fn piece_all(s: &[char]) -> (r: Vec<char>)
    ensures
        r@ == s@,
{
    vstd::slice::slice_to_vec(s)
}

fn push_chars(out: &mut Vec<char>, s: &[char])
    ensures
        final(out)@ == old(out)@ + s@,
{
    out.extend_from_slice(s);
    assert(out@ =~= old(out)@ + s@);
}

/// Whether the only transfer coding is `chunked`.
fn only_chunked(codings: &Vec<Vec<char>>) -> (r: bool)
    ensures
        r == (texts(codings@) == seq!["chunked"@]),
{
    if codings.len() != 1 {
        assert(texts(codings@).len() != 1);
        return false;
    }
    let r = is_text(codings[0].as_slice(), "chunked");
    proof {
        assert(texts(codings@)[0] == codings@[0]@);
        if r {
            assert(texts(codings@) =~= seq!["chunked"@]);
        }
    }
    r
}

/// Parse a complete proxy request from `buf`.
///
/// `Ok(None)` means the request has not fully arrived yet.
pub fn parse_request(buf: &[u8], upgrade_scheme: bool) -> (r: Result<
    Option<Request>,
    ParseError,
>)
    ensures
        match (r, proxy_request(buf@, upgrade_scheme)) {
            (Ok(Some(a)), Ok(Some(b))) => a@ == b,
            (Ok(None), Ok(None)) => true,
            (Err(a), Err(b)) => a == b,
            _ => false,
        },
{
    let end: usize = match find_head_end(buf) {
        Some(end) => end,
        None => {
            return if buf.len() > MAX_HEAD {
                Err(refuse_head())
            } else {
                Ok(None)
            };
        },
    };
    let text: String = lossy_text(vstd::slice::slice_subrange(buf, 0, end - 4));
    parse_behind(buf, text.as_str(), end, upgrade_scheme)
}

/// Parse the request behind a complete head whose text is `text` and which
/// ends at `end`.
pub fn parse_behind(buf: &[u8], text: &str, end: usize, upgrade_scheme: bool) -> (r: Result<
    Option<Request>,
    ParseError,
>)
    requires
        end <= buf@.len(),
    ensures
        match (r, request_behind(buf@, text@, end as int, upgrade_scheme)) {
            (Ok(Some(a)), Ok(Some(b))) => a@ == b,
            (Ok(None), Ok(None)) => true,
            (Err(a), Err(b)) => a == b,
            _ => false,
        },
{
    let chars: Vec<char> = chars_of(text);
    let lines: Vec<Vec<char>> = split_lines(chars.as_slice());
    let ghost views = texts(lines@);
    assert(views[0] == lines@[0]@);
    let ws: Vec<Vec<char>> = split_words(lines[0].as_slice());
    let method: Vec<char> = word(&ws, 0);
    let target: Vec<char> = word(&ws, 1);
    if method.len() == 0 || target.len() == 0 {
        return Err(refuse("malformed request line"));
    }
    let mut head = Head {
        headers: Vec::new(),
        host: Vec::new(),
        length: None,
        codings: Vec::new(),
    };
    assert(head@ == head_of(views, 1)->Ok_0) by {
        assert(head@.headers =~= Seq::empty());
        assert(head@.codings =~= Seq::empty());
    }
    let mut i: usize = 1;
    while i < lines.len()
        invariant
            1 <= i <= lines@.len(),
            views == texts(lines@),
            head_of(views, i as int) == Ok::<HeadView, ParseError>(head@),
            method@ == nth(words(lines_from(text@, 0)[0]), 0),
            target@ == nth(words(lines_from(text@, 0)[0]), 1),
            method@.len() > 0,
            target@.len() > 0,
            views == lines_from(text@, 0),
        decreases lines@.len() - i,
    {
        assert(views[i as int] == lines@[i as int]@);
        if let Err(e) = head.add_line(lines[i].as_slice()) {
            proof {
                lemma_head_error(views, i + 1, views.len() as int);
            }
            return Err(e);
        }
        i = i + 1;
    }
    if is_text_ignoring_case(method.as_slice(), "CONNECT") {
        // Would require terminating TLS here.
        return Err(
            refuse_unimplemented("CONNECT (https) is not supported yet; use an http:// URL"),
        );
    }
    let coded = head.codings.len() > 0;
    assert(head@.codings.len() == head.codings@.len());
    if head.length.is_some() && coded {
        return Err(refuse("both Content-Length and Transfer-Encoding are present"));
    }
    if coded && !only_chunked(&head.codings) {
        return Err(refuse_unimplemented("only a single chunked transfer coding is supported"));
    }
    if let Some(length) = head.length {
        if length > MAX_BODY {
            return Err(refuse_size());
        }
    }
    // Wait for the whole body before submitting: egress is request/response
    // shaped and cannot stream a partial body.

    let body: Vec<u8> = if coded {
        match decode_chunked_body(buf, end) {
            Ok(Some(body)) => body,
            Ok(None) => {
                return Ok(None);
            },
            Err(e) => {
                return Err(e);
            },
        }
    } else {
        let length: usize = match head.length {
            Some(length) => length,
            None => 0,
        };
        if buf.len() - end < length {
            return Ok(None);
        }
        copy_range(buf, end, end + length)
    };
    let url: Vec<char> = match absolute_url(target.as_slice(), head.host.as_slice()) {
        Some(url) => url,
        None => {
            return Err(refuse("request target is not a proxyable URL"));
        },
    };
    let url: Vec<char> = if upgrade_scheme {
        match prefix_len(url.as_slice(), "http://") {
            Some(n) => {
                let mut secure: Vec<char> = chars_of("https://");
                push_chars(&mut secure, vstd::slice::slice_subrange(url.as_slice(), n, url.len()));
                secure
            },
            None => url,
        }
    } else {
        url
    };
    Ok(
        Some(
            Request {
                method: string_of(method.as_slice()),
                url: string_of(url.as_slice()),
                headers: head.headers,
                body,
            },
        ),
    )
}

proof fn lemma_head_error(lines: Seq<Seq<char>>, m: int, n: int)
    requires
        1 <= m <= n,
        head_of(lines, m) is Err,
    ensures
        head_of(lines, n) == head_of(lines, m),
    decreases n,
{
    if m < n {
        lemma_head_error(lines, m, n - 1);
    }
}

// ---- laws ----------------------------------------------------------------

/// `b` is `a` with more bytes behind it.
pub open spec fn extends(a: Seq<u8>, b: Seq<u8>) -> bool {
    a.len() <= b.len() && b.subrange(0, a.len() as int) == a
}

proof fn lemma_extends_at(a: Seq<u8>, b: Seq<u8>, i: int)
    requires
        extends(a, b),
        0 <= i < a.len(),
    ensures
        b[i] == a[i],
{
    assert(b.subrange(0, a.len() as int)[i] == a[i]);
}

proof fn lemma_crlf_stable(a: Seq<u8>, b: Seq<u8>, from: int)
    requires
        extends(a, b),
        0 <= from,
    ensures
        crlf_at(a, from) is Some ==> crlf_at(b, from) == crlf_at(a, from),
    decreases a.len() - from,
{
    if from + 2 <= a.len() {
        lemma_extends_at(a, b, from);
        lemma_extends_at(a, b, from + 1);
        lemma_crlf_stable(a, b, from + 1);
    }
}

proof fn lemma_head_end_stable(a: Seq<u8>, b: Seq<u8>, from: int)
    requires
        extends(a, b),
        0 <= from,
    ensures
        head_end_from(a, from) is Some ==> head_end_from(b, from) == head_end_from(a, from),
    decreases a.len() - from,
{
    if from + 4 <= a.len() {
        lemma_extends_at(a, b, from);
        lemma_extends_at(a, b, from + 1);
        lemma_extends_at(a, b, from + 2);
        lemma_extends_at(a, b, from + 3);
        lemma_head_end_stable(a, b, from + 1);
    }
}

proof fn lemma_sub_stable(a: Seq<u8>, b: Seq<u8>, from: int, to: int)
    requires
        extends(a, b),
        0 <= from <= to <= a.len(),
    ensures
        b.subrange(from, to) == a.subrange(from, to),
{
    assert forall|i: int| from <= i < to implies b[i] == a[i] by {
        lemma_extends_at(a, b, i);
    }
    assert(b.subrange(from, to) =~= a.subrange(from, to));
}

/// A chunked body that is complete, or refused, stays so when more bytes
/// arrive.
pub proof fn law_chunked_is_stable(a: Seq<u8>, b: Seq<u8>, pos: int, so_far: Seq<u8>)
    requires
        extends(a, b),
        0 <= pos,
        chunked(a, pos, so_far) != Ok::<Option<Seq<u8>>, ParseError>(None),
    ensures
        chunked(b, pos, so_far) == chunked(a, pos, so_far),
    decreases a.len() - pos,
{
    lemma_crlf(a, pos);
    lemma_crlf_stable(a, b, pos);
    let end = crlf_at(a, pos)->0;
    lemma_sub_stable(a, b, pos, end);
    let next = end + 2;
    if let Some(size) = chunk_size(a.subrange(pos, end)) {
        if size == 0 {
            lemma_crlf_stable(a, b, next);
        } else if so_far.len() + size > MAX_BODY || next + size > usize::MAX {
        } else {
            assert(a.len() >= next + size + 2);
            lemma_extends_at(a, b, next + size);
            lemma_extends_at(a, b, next + size + 1);
            if a[next + size] == 13 && a[next + size + 1] == 10 {
                lemma_sub_stable(a, b, next, next + size as int);
                law_chunked_is_stable(
                    a,
                    b,
                    next + size + 2,
                    so_far + a.subrange(next, next + size as int),
                );
            }
        }
    }
}

/// A request that has fully arrived, or that is refused for anything but a head
/// without end, is read the same when more bytes arrive.
pub proof fn law_request_is_stable(a: Seq<u8>, b: Seq<u8>, upgrade: bool)
    requires
        extends(a, b),
        head_end(a) is Some,
        proxy_request(a, upgrade) != Ok::<Option<RequestView>, ParseError>(None),
    ensures
        proxy_request(b, upgrade) == proxy_request(a, upgrade),
{
    lemma_head_end(a, 0);
    lemma_head_end_stable(a, b, 0);
    let end = head_end(a)->0;
    lemma_sub_stable(a, b, 0, end - 4);
    let lines = lines_from(text_of(a.subrange(0, end - 4)), 0);
    if let Ok(head) = head_of(lines, lines.len() as int) {
        if head.codings.len() > 0 {
            if chunked(a, end, Seq::empty()) != Ok::<Option<Seq<u8>>, ParseError>(None) {
                law_chunked_is_stable(a, b, end, Seq::empty());
            }
        } else {
            let length = match head.length {
                Some(length) => length as int,
                None => 0,
            };
            if end + length <= a.len() {
                lemma_sub_stable(a, b, end, end + length);
            }
        }
    }
}

/// No header of this hop reaches egress, and neither does a body length: a
/// header that a line adds is neither.
pub proof fn law_hop_by_hop_is_stripped(lines: Seq<Seq<char>>, n: int, i: int)
    requires
        head_of(lines, n) is Ok,
        0 <= i < (head_of(lines, n)->Ok_0).headers.len(),
    ensures
        !hop_by_hop(lowered((head_of(lines, n)->Ok_0).headers[i].0)),
        lowered((head_of(lines, n)->Ok_0).headers[i].0) != "content-length"@,
    decreases n,
{
    if n > 1 {
        let before = head_of(lines, n - 1)->Ok_0;
        let after = head_of(lines, n)->Ok_0;
        if i < before.headers.len() {
            law_hop_by_hop_is_stripped(lines, n - 1, i);
            assert(after.headers[i] == before.headers[i]);
        }
    }
}

/// Some data in chunks: each chunk's size in hexadecimal and its data, then an
/// empty chunk.
pub open spec fn in_chunks(parts: Seq<Seq<u8>>) -> Seq<u8>
    decreases parts.len(),
{
    if parts.len() == 0 {
        seq![48u8, 13, 10, 13, 10]
    } else {
        crate::bytes::hex_text(parts[0].len()) + seq![13u8, 10] + parts[0] + seq![13u8, 10]
            + in_chunks(parts.drop_first())
    }
}

/// The data of some parts.
pub open spec fn joined(parts: Seq<Seq<u8>>) -> Seq<u8>
    decreases parts.len(),
{
    if parts.len() == 0 {
        Seq::empty()
    } else {
        parts[0] + joined(parts.drop_first())
    }
}

/// ASCII bytes as characters.
pub open spec fn as_chars(s: Seq<u8>) -> Seq<char> {
    s.map_values(|b: u8| b as char)
}

pub(crate) proof fn lemma_hex_text(v: nat)
    ensures
        crate::bytes::hex_text(v).len() > 0,
        forall|i: int|
            0 <= i < crate::bytes::hex_text(v).len() ==> (48 <= #[trigger] crate::bytes::hex_text(
                v,
            )[i] <= 57 || 97 <= crate::bytes::hex_text(v)[i] <= 102),
        crate::text::digits_value(as_chars(crate::bytes::hex_text(v)), 16) == Some(v),
    decreases v,
{
    let s = crate::bytes::hex_text(v);
    let chars = as_chars(s);
    if v >= 16 {
        lemma_hex_text(v / 16);
        let head = crate::bytes::hex_text(v / 16);
        assert(chars.drop_last() =~= as_chars(head));
        assert forall|i: int| 0 <= i < s.len() implies (48 <= #[trigger] s[i] <= 57 || 97 <= s[i]
            <= 102) by {
            if i < head.len() {
                assert(s[i] == head[i]);
            }
        }
        assert(crate::text::digit_value(chars.last(), 16) == Some(v % 16));
    } else {
        assert(chars.drop_last() =~= Seq::empty());
        assert(crate::text::digits_value(Seq::<char>::empty(), 16) == Some(0nat));
        assert(crate::text::digit_value(chars.last(), 16) == Some(v));
    }
}

pub(crate) proof fn lemma_no_white(s: Seq<char>)
    requires
        s.len() > 0,
        !crate::text::is_white(s[0]),
        !crate::text::is_white(s.last()),
    ensures
        trimmed(s) == s,
{
    assert(s.subrange(0, s.len() as int) =~= s);
}

proof fn lemma_semicolon(s: Seq<u8>, from: int)
    requires
        0 <= from <= s.len(),
        forall|i: int| 0 <= i < s.len() ==> s[i] != 59,
    ensures
        before_semicolon(s, from) == s.len(),
    decreases s.len() - from,
{
    if from < s.len() {
        lemma_semicolon(s, from + 1);
    }
}

/// A chunk size is read back from its hexadecimal text.
pub proof fn law_chunk_size_reads_back(n: nat)
    requires
        n <= usize::MAX,
    ensures
        chunk_size(crate::bytes::hex_text(n)) == Some(n),
{
    let s = crate::bytes::hex_text(n);
    let chars = as_chars(s);
    lemma_hex_text(n);
    assert forall|i: int| 0 <= i < s.len() implies s[i] != 59 by {}
    lemma_semicolon(s, 0);
    assert(s.subrange(0, s.len() as int) =~= s);
    assert(vstd::utf8::is_ascii_chars(chars)) by {
        assert forall|i: int| 0 <= i < chars.len() implies 0 <= #[trigger] chars[i] as nat && (
        chars[i] as nat) < 128 by {
            assert(48 <= s[i] <= 57 || 97 <= s[i] <= 102);
        }
    }
    vstd::utf8::is_ascii_chars_encode_utf8(chars);
    let encoded = vstd::utf8::encode_utf8(chars);
    assert(encoded =~= s);
    vstd::utf8::encode_utf8_valid_utf8(chars);
    vstd::utf8::encode_utf8_decode_utf8(chars);
    assert(decode_utf8(s) == chars);
    assert(48 <= s[0] <= 57 || 97 <= s[0] <= 102);
    assert(48 <= s[s.len() - 1] <= 57 || 97 <= s[s.len() - 1] <= 102);
    lemma_no_white(chars);
}

pub(crate) proof fn lemma_no_crlf(buf: Seq<u8>, from: int, at: int)
    requires
        0 <= from <= at,
        at + 2 <= buf.len(),
        buf[at] == 13 && buf[at + 1] == 10,
        forall|i: int| from <= i < at ==> buf[i] != 13,
    ensures
        crlf_at(buf, from) == Some(at),
    decreases at - from,
{
    if from < at {
        lemma_no_crlf(buf, from + 1, at);
    }
}

/// A body sent in chunks is put together again: decoding yields the parts one
/// after another, if they are within the limit and none is empty.
pub proof fn law_chunks_are_joined(buf: Seq<u8>, pos: int, parts: Seq<Seq<u8>>, so_far: Seq<u8>)
    requires
        0 <= pos,
        buf.len() <= usize::MAX,
        pos + in_chunks(parts).len() == buf.len(),
        buf.subrange(pos, buf.len() as int) == in_chunks(parts),
        forall|i: int| 0 <= i < parts.len() ==> (#[trigger] parts[i]).len() > 0,
        so_far.len() + joined(parts).len() <= MAX_BODY,
    ensures
        chunked(buf, pos, so_far) == Ok::<Option<Seq<u8>>, ParseError>(
            Some(so_far + joined(parts)),
        ),
    decreases parts.len(),
{
    let wire = in_chunks(parts);
    assert forall|i: int| 0 <= i < wire.len() implies #[trigger] buf[pos + i] == wire[i] by {
        assert(buf.subrange(pos, buf.len() as int)[i] == wire[i]);
    }
    if parts.len() == 0 {
        assert(buf[pos + 0] == 48);
        assert(buf[pos + 1] == 13);
        assert(buf[pos + 2] == 10);
        assert(buf[pos + 3] == 13);
        assert(buf[pos + 4] == 10);
        lemma_no_crlf(buf, pos, pos + 1);
        law_chunk_size_reads_back(0);
        assert(buf.subrange(pos, pos + 1) =~= crate::bytes::hex_text(0));
        assert(so_far + joined(parts) =~= so_far);
    } else {
        let size = parts[0].len();
        let hex = crate::bytes::hex_text(size);
        let h = hex.len() as int;
        let rest = in_chunks(parts.drop_first());
        lemma_hex_text(size);
        law_chunk_size_reads_back(size);
        assert(wire.len() == h + 2 + size + 2 + rest.len());
        assert forall|i: int| pos <= i < pos + h implies buf[i] != 13 by {
            assert(buf[pos + (i - pos)] == wire[i - pos]);
            assert(wire[i - pos] == hex[i - pos]);
        }
        assert(buf[pos + h] == wire[h] && wire[h] == 13);
        assert(buf[pos + (h + 1)] == wire[h + 1] && wire[h + 1] == 10);
        lemma_no_crlf(buf, pos, pos + h);
        assert(buf.subrange(pos, pos + h) =~= hex) by {
            assert forall|i: int| 0 <= i < h implies buf[pos + i] == hex[i] by {
                assert(wire[i] == hex[i]);
            }
        }
        let next = pos + h + 2;
        assert(buf.subrange(next, next + size as int) =~= parts[0]) by {
            assert forall|i: int| 0 <= i < size implies buf[next + i] == parts[0][i] by {
                assert(buf[pos + (h + 2 + i)] == wire[h + 2 + i]);
            }
        }
        assert(buf[pos + (h + 2 + size)] == wire[h + 2 + size as int]);
        assert(buf[pos + (h + 3 + size)] == wire[h + 3 + size as int]);
        let after = next + size + 2;
        assert(buf.subrange(after, buf.len() as int) =~= rest) by {
            assert forall|i: int| 0 <= i < rest.len() implies buf[after + i] == rest[i] by {
                assert(buf[pos + (h + 4 + size + i)] == wire[h + 4 + size + i]);
            }
        }
        assert forall|i: int| 0 <= i < parts.drop_first().len() implies (#[trigger]
        parts.drop_first()[i]).len() > 0 by {
            assert(parts[i + 1].len() > 0);
        }
        assert(joined(parts).len() == size + joined(parts.drop_first()).len());
        law_chunks_are_joined(buf, after, parts.drop_first(), so_far + parts[0]);
        assert(so_far + parts[0] + joined(parts.drop_first()) =~= so_far + joined(parts));
    }
}

} // verus!
